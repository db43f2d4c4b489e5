//! Request authentication: a request must come from the expected origin
//! and carry a fresh timestamp with its HMAC-SHA256 signature, taken over
//! the request path followed by the timestamp, in lowercase hex.
use vstd::prelude::*;
use hmac::{Hmac, Mac};
use sha2::Sha256;
use crate::app_state::{AppError, RequestContext};
use crate::parser::{fields, u64_text, parse_u64, lemma_decimal_reads_back};
use crate::text::{str_chars, contains_text, occurs_in, split_trimmed, decimal, decimal_text, chars_to_string};

verus! {

/// The HMAC-SHA256 tag of the UTF-8 bytes of `data` under `key`.
pub uninterp spec fn hmac_sha256_tag(key: Seq<u8>, data: Seq<char>) -> Seq<u8>;

/// The lowercase hexadecimal digit of a value below 16.
pub open spec fn hex_digit(d: nat) -> char {
    if d < 10 {
        ((48 + d) as u32) as char
    } else {
        ((87 + d) as u32) as char
    }
}

/// Bytes in lowercase hexadecimal, two digits per byte.
pub open spec fn hex_text(bytes: Seq<u8>) -> Seq<char>
    decreases bytes.len(),
{
    if bytes.len() == 0 {
        Seq::empty()
    } else {
        hex_text(bytes.drop_last()) + seq![hex_digit(bytes.last() as nat / 16), hex_digit(bytes.last() as nat % 16)]
    }
}

/// Computes the HMAC-SHA256 tag of `data` under `key` with the `hmac` and
/// `sha2` crates (`Hmac::<Sha256>::new_from_slice`, which accepts a key of
/// any length, then `update` and `finalize`). The tag has 32 bytes.
#[verifier::external_body]
fn hmac_sha256(key: &[u8], data: &str) -> (r: Vec<u8>)
    ensures
        r@ == hmac_sha256_tag(key@, data@),
        r@.len() == 32,
{
    let mut mac = Hmac::<Sha256>::new_from_slice(key).expect("HMAC takes a key of any length");
    mac.update(data.as_bytes());
    mac.finalize().into_bytes().to_vec()
}

/// Calls `hex::encode`: each byte as two lowercase hexadecimal digits.
#[verifier::external_body]
fn hex_encode(bytes: &[u8]) -> (r: String)
    ensures
        r@ == hex_text(bytes@),
{
    hex::encode(bytes)
}

/// The signature a request to `path` stamped `timestamp` must carry.
pub open spec fn expected_signature(key: Seq<u8>, path: Seq<char>, timestamp: u64) -> Seq<char> {
    hex_text(hmac_sha256_tag(key, path + decimal_text(timestamp as nat)))
}

/// The signature of a request to `path` stamped `timestamp`: the lowercase
/// hex HMAC-SHA256 tag of the path followed by the timestamp in decimal.
pub fn sign_request(key: &[u8], path: &str, timestamp: u64) -> (r: String)
    ensures
        r@ == expected_signature(key@, path@, timestamp),
        r@.len() == 64,
{
    let mut data = path.to_owned();
    let digits = chars_to_string(decimal(timestamp as u128).as_slice());
    vstd::string::StringExecFns::append(&mut data, digits.as_str());
    let tag = hmac_sha256(key, data.as_str());
    proof {
        lemma_hex_len(tag@);
    }
    hex_encode(tag.as_slice())
}

/// Hex text has two digits per byte.
proof fn lemma_hex_len(bytes: Seq<u8>)
    ensures
        hex_text(bytes).len() == 2 * bytes.len(),
    decreases bytes.len(),
{
    if bytes.len() > 0 {
        lemma_hex_len(bytes.drop_last());
    }
}

/// The headers authentication reads; a header that is missing or not
/// visible ASCII is `None`.
#[derive(Clone, Debug)]
pub struct RequestHeaders {
    pub origin: Option<String>,
    pub websocket_protocol: Option<String>,
    pub timestamp: Option<String>,
    pub signature: Option<String>,
    pub forwarded_for: Option<String>,
    pub user_agent: Option<String>,
}

/// The path of the websocket route, whose credentials travel in the
/// websocket protocol header.
pub open spec fn websocket_path() -> Seq<char> {
    seq!['/', 'w', 's', 'l', 'o', 'b']
}

/// A header's text, or "NA" when it is missing.
pub open spec fn or_na(h: Option<String>) -> Seq<char> {
    match h {
        Some(s) => s@,
        None => seq!['N', 'A'],
    }
}

/// The timestamp and signature a request carries: on the websocket route
/// the first two comma-separated, trimmed fields of the protocol header,
/// elsewhere the timestamp and signature headers.
pub open spec fn credentials(path: Seq<char>, h: RequestHeaders) -> (Option<u64>, Option<Seq<char>>) {
    if path == websocket_path() {
        match h.websocket_protocol {
            None => (None, None),
            Some(p) => {
                let f = fields(p@);
                (u64_text(f[0]), if f.len() > 1 { Some(f[1]) } else { None })
            },
        }
    } else {
        (
            match h.timestamp {
                Some(t) => u64_text(t@),
                None => None,
            },
            match h.signature {
                Some(s) => Some(s@),
                None => None,
            },
        )
    }
}

/// Seconds from `ts` to `now` on a 64-bit counter that wraps around.
pub open spec fn age(now: u64, ts: u64) -> int {
    if now >= ts {
        now - ts
    } else {
        now - ts + 0x1_0000_0000_0000_0000
    }
}

/// Why a request is refused, if it is.
pub open spec fn refusal(h: RequestHeaders, expected_origin: Seq<char>, path: Seq<char>, now: u64, key: Seq<u8>) -> Option<Seq<char>> {
    if !occurs_in(expected_origin, or_na(h.origin)) {
        Some("Invalid origin"@)
    } else {
        match credentials(path, h) {
            (Some(ts), Some(sig)) => if age(now, ts) > 60 {
                Some("Request expired"@)
            } else if sig != expected_signature(key, path, ts) {
                Some("Invalid signature"@)
            } else {
                None
            },
            _ => Some("Missing timestamp or signature"@),
        }
    }
}

fn text_of(h: &Option<String>) -> (r: Vec<char>)
    ensures
        r@ == or_na(*h),
{
    match h {
        Some(s) => str_chars(s.as_str()),
        None => {
            let mut r: Vec<char> = Vec::new();
            r.push('N');
            r.push('A');
            proof {
                assert(r@ =~= seq!['N', 'A']);
            }
            r
        },
    }
}

fn read_credentials(path: &Vec<char>, h: &RequestHeaders) -> (r: (Option<u64>, Option<Vec<char>>))
    ensures
        r.0 == credentials(path@, *h).0,
        match r.1 {
            Some(s) => credentials(path@, *h).1 == Some(s@),
            None => credentials(path@, *h).1 is None,
        },
{
    let ws = path.len() == 6 && path[0] == '/' && path[1] == 'w' && path[2] == 's' && path[3] == 'l'
        && path[4] == 'o' && path[5] == 'b';
    proof {
        if path@.len() == 6 {
            if ws {
                assert(path@ =~= websocket_path());
            } else {
                assert(path@ != websocket_path());
            }
        }
    }
    if ws {
        match &h.websocket_protocol {
            None => (None, None),
            Some(p) => {
                let chars = str_chars(p.as_str());
                let parts = split_trimmed(&chars, ',');
                proof {
                    crate::text::lemma_split_nonempty(chars@, ',');
                    assert(parts@[0]@ == fields(p@)[0]);
                }
                let ts = match parse_u64(&parts[0]) {
                    Ok(v) => Some(v),
                    Err(_) => None,
                };
                let sig = if parts.len() > 1 {
                    proof {
                        assert(parts@[1]@ == fields(p@)[1]);
                    }
                    Some(parts[1].clone())
                } else {
                    None
                };
                (ts, sig)
            },
        }
    } else {
        let ts = match &h.timestamp {
            Some(t) => match parse_u64(&str_chars(t.as_str())) {
                Ok(v) => Some(v),
                Err(_) => None,
            },
            None => None,
        };
        let sig = match &h.signature {
            Some(s) => Some(str_chars(s.as_str())),
            None => None,
        };
        (ts, sig)
    }
}

/// Authenticates a request to `uri_path` received at `now` (seconds since
/// the Unix epoch) from `socket_ip`: its origin must contain
/// `expected_origin`, and it must carry a timestamp at most 60 seconds old
/// and the signature of the path and timestamp under `hmac_key`. An
/// accepted request's context names the forwarded address (else the
/// socket's), the origin and user agent ("NA" when missing), and the
/// timestamp and signature.
pub fn authorize(
    headers: &RequestHeaders,
    expected_origin: &str,
    uri_path: &str,
    now: u64,
    hmac_key: &[u8],
    socket_ip: &str,
) -> (r: Result<RequestContext, AppError>)
    ensures
        match refusal(*headers, expected_origin@, uri_path@, now, hmac_key@) {
            Some(reason) => r matches Err(AppError::Unauthorized(m)) && m@ == reason,
            None => r matches Ok(ctx) && {
                let (ts, sig) = credentials(uri_path@, *headers);
                &&& ctx.remote_ip@ == match headers.forwarded_for {
                    Some(f) => f@,
                    None => socket_ip@,
                }
                &&& ctx.origin@ == or_na(headers.origin)
                &&& ctx.user_agent@ == or_na(headers.user_agent)
                &&& ctx.timestamp@ == decimal_text(ts.unwrap() as nat)
                &&& ctx.signature@ == sig.unwrap()
            },
        },
{
    proof {
        reveal_strlit("Invalid origin");
        reveal_strlit("Request expired");
        reveal_strlit("Invalid signature");
        reveal_strlit("Missing timestamp or signature");
    }
    let origin = text_of(&headers.origin);
    let expected = str_chars(expected_origin);
    if !contains_text(&origin, &expected) {
        return Err(AppError::Unauthorized("Invalid origin".to_owned()));
    }
    let path = str_chars(uri_path);
    let (ts, sig) = read_credentials(&path, headers);
    match (ts, sig) {
        (Some(ts), Some(sig)) => {
            if now.wrapping_sub(ts) > 60 {
                return Err(AppError::Unauthorized("Request expired".to_owned()));
            }
            let expected_sig = sign_request(hmac_key, uri_path, ts);
            let sig_text = chars_to_string(sig.as_slice());
            if sig_text != expected_sig {
                return Err(AppError::Unauthorized("Invalid signature".to_owned()));
            }
            let remote_ip = match &headers.forwarded_for {
                Some(f) => f.clone(),
                None => socket_ip.to_owned(),
            };
            let ua = text_of(&headers.user_agent);
            Ok(RequestContext {
                remote_ip,
                origin: chars_to_string(origin.as_slice()),
                user_agent: chars_to_string(ua.as_slice()),
                timestamp: chars_to_string(decimal(ts as u128).as_slice()),
                signature: sig_text,
            })
        },
        _ => Err(AppError::Unauthorized("Missing timestamp or signature".to_owned())),
    }
}

/// A request from the expected origin that carries a timestamp at most 60
/// seconds old and the signature `sign_request` makes for its path and
/// timestamp under the shared key is accepted.
pub proof fn law_signed_requests_accepted(
    h: RequestHeaders,
    expected_origin: Seq<char>,
    path: Seq<char>,
    now: u64,
    key: Seq<u8>,
    ts: u64,
)
    requires
        occurs_in(expected_origin, or_na(h.origin)),
        credentials(path, h) == (Some(ts), Some(expected_signature(key, path, ts))),
        age(now, ts) <= 60,
    ensures
        refusal(h, expected_origin, path, now, key) is None,
{
}

/// A request whose signature differs from the one its path and timestamp
/// call for is refused, however fresh and whatever its origin.
pub proof fn law_forged_requests_refused(
    h: RequestHeaders,
    expected_origin: Seq<char>,
    path: Seq<char>,
    now: u64,
    key: Seq<u8>,
    ts: u64,
    sig: Seq<char>,
)
    requires
        credentials(path, h) == (Some(ts), Some(sig)),
        sig != expected_signature(key, path, ts),
    ensures
        refusal(h, expected_origin, path, now, key) is Some,
{
}

/// A client that stamps a request to `path` (other than the websocket
/// path) with the time `ts` in decimal and signs it with `sign_request`
/// under the shared key is accepted, from the expected origin, while the
/// stamp is at most 60 seconds old: the stamp reads back as `ts`.
pub proof fn law_client_signature_accepted(
    h: RequestHeaders,
    expected_origin: Seq<char>,
    path: Seq<char>,
    now: u64,
    key: Seq<u8>,
    ts: u64,
)
    requires
        path != websocket_path(),
        occurs_in(expected_origin, or_na(h.origin)),
        h.timestamp matches Some(t) && t@ == decimal_text(ts as nat),
        h.signature matches Some(sig) && sig@ == expected_signature(key, path, ts),
        age(now, ts) <= 60,
    ensures
        refusal(h, expected_origin, path, now, key) is None,
{
    lemma_decimal_reads_back(ts as nat);
}

} // verus!
