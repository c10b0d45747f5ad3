//! Bearer tokens: HS256-signed JWTs carrying the claim object. Issue and
//! verification are verified against the byte format; the HMAC signature and
//! the base64 alphabets come from outside crates behind trusted wrappers.

use vstd::prelude::*;

use base64::Engine;

use crate::bytes::{ascii, bytes_eq, copy_bytes, find_byte};
use crate::json::{
    first_kv, lookup, parse_object, pv, spec_parse_object, JsonPair, JsonPairView, JsonVal,
    JsonValView,
};
use crate::models::{TokenClaims, TokenClaimsView};

verus! {

// ---------------------------------------------------------------------------
// Trusted wrappers around the signing and base64 crates.
// ---------------------------------------------------------------------------

/// The base64url signature text jsonwebtoken's HS256 signer produces for a
/// key and message; a function of both alone.
pub uninterp spec fn hs256_sig_of(secret: Seq<u8>, message: Seq<u8>) -> Seq<u8>;

/// Relies on jsonwebtoken::crypto::sign with HS256: the result is the
/// base64url text of the HMAC-SHA256 tag, deterministic in key and message,
/// over an alphabet without dots.
#[verifier::external_body]
fn sign_hs256(secret: &[u8], message: &[u8]) -> (r: Vec<u8>)
    ensures
        r@ == hs256_sig_of(secret@, message@),
        forall|i: int| 0 <= i < r@.len() ==> r@[i] != 0x2e,
{
    let key = jsonwebtoken::EncodingKey::from_secret(secret);
    match jsonwebtoken::crypto::sign(message, &key, jsonwebtoken::Algorithm::HS256) {
        Ok(s) => s.into_bytes(),
        Err(_) => Vec::new(),
    }
}

/// Relies on jsonwebtoken::crypto::verify with HS256: it recomputes the
/// signature for the message and reports whether the given one matches.
#[verifier::external_body]
fn verify_hs256(signature: &[u8], message: &[u8], secret: &[u8]) -> (r: bool)
    ensures
        r == (signature@ == hs256_sig_of(secret@, message@)),
{
    let sig = match core::str::from_utf8(signature) {
        Ok(s) => s,
        Err(_) => {
            return false;
        },
    };
    let key = jsonwebtoken::DecodingKey::from_secret(secret);
    match jsonwebtoken::crypto::verify(sig, message, &key, jsonwebtoken::Algorithm::HS256) {
        Ok(b) => b,
        Err(_) => false,
    }
}

/// The base64url (unpadded) text of a byte string.
pub uninterp spec fn b64url_of(b: Seq<u8>) -> Seq<u8>;

/// What base64url decoding yields, when the text is valid.
pub uninterp spec fn b64url_decode_of(s: Seq<u8>) -> Option<Seq<u8>>;

/// Relies on base64's URL_SAFE_NO_PAD engine: deterministic, dot-free text
/// whose decoding gives back the input bytes.
#[verifier::external_body]
fn b64url_encode(b: &[u8]) -> (r: Vec<u8>)
    ensures
        r@ == b64url_of(b@),
        b64url_decode_of(r@) == Some(b@),
        forall|i: int| 0 <= i < r@.len() ==> r@[i] != 0x2e,
{
    base64::engine::general_purpose::URL_SAFE_NO_PAD.encode(b).into_bytes()
}

/// Relies on the same engine's decode: the partial inverse named above.
#[verifier::external_body]
fn b64url_decode(s: &[u8]) -> (r: Option<Vec<u8>>)
    ensures
        match r {
            Some(v) => b64url_decode_of(s@) == Some(v@),
            None => b64url_decode_of(s@) is None,
        },
{
    match base64::engine::general_purpose::URL_SAFE_NO_PAD.decode(s) {
        Ok(v) => Some(v),
        Err(_) => None,
    }
}

/// The standard (padded) base64 text of a byte string.
pub uninterp spec fn b64std_of(b: Seq<u8>) -> Seq<u8>;

/// What standard base64 decoding yields, when the text is valid.
pub uninterp spec fn b64std_decode_of(s: Seq<u8>) -> Option<Seq<u8>>;

/// Relies on base64's STANDARD engine: deterministic text whose decoding
/// gives back the input bytes, over the printable alphabet `A-Za-z0-9+/=`.
#[verifier::external_body]
pub fn b64std_encode(b: &[u8]) -> (r: Vec<u8>)
    ensures
        r@ == b64std_of(b@),
        b64std_decode_of(r@) == Some(b@),
        forall|i: int| 0 <= i < r@.len() ==> r@[i] >= 0x20,
{
    base64::engine::general_purpose::STANDARD.encode(b).into_bytes()
}

/// Relies on the STANDARD engine's decode: the partial inverse named above.
#[verifier::external_body]
pub fn b64std_decode(s: &[u8]) -> (r: Option<Vec<u8>>)
    ensures
        match r {
            Some(v) => b64std_decode_of(s@) == Some(v@),
            None => b64std_decode_of(s@) is None,
        },
{
    match base64::engine::general_purpose::STANDARD.decode(s) {
        Ok(v) => Some(v),
        Err(_) => None,
    }
}

/// Relies on std::time::SystemTime: seconds since the Unix epoch.
#[verifier::external_body]
pub fn now_unix() -> u64 {
    match std::time::SystemTime::now().duration_since(std::time::UNIX_EPOCH) {
        Ok(d) => d.as_secs(),
        Err(_) => 0,
    }
}

/// Relies on rand::random: an arbitrary machine word.
#[verifier::external_body]
pub fn random_u64() -> u64 {
    rand::random::<u64>()
}

/// An ASCII letter or digit.
pub open spec fn is_alnum(b: u8) -> bool {
    (0x30 <= b && b <= 0x39) || (0x41 <= b && b <= 0x5a) || (0x61 <= b && b <= 0x7a)
}

/// Relies on rand's Alphanumeric distribution: 32 ASCII letters or digits.
#[verifier::external_body]
pub fn random_session_id() -> (r: Vec<u8>)
    ensures
        r@.len() == 32,
        forall|i: int| 0 <= i < r@.len() ==> is_alnum(r@[i]),
{
    let mut rng = rand::rng();
    let mut out: Vec<u8> = Vec::with_capacity(32);
    while out.len() < 32 {
        out.push(
            <rand::distr::Alphanumeric as rand::distr::Distribution<u8>>::sample(
                &rand::distr::Alphanumeric,
                &mut rng,
            ),
        );
    }
    out
}

// ---------------------------------------------------------------------------
// Claims in and out of the JSON object.
// ---------------------------------------------------------------------------

pub open spec fn opt_val_s(o: Option<Seq<u8>>) -> JsonValView {
    match o {
        Some(s) => JsonValView::S(s),
        None => JsonValView::Null,
    }
}

pub open spec fn opt_val_n(o: Option<u64>) -> JsonValView {
    match o {
        Some(n) => JsonValView::N(n),
        None => JsonValView::Null,
    }
}

/// The claim object's pairs, in the fixed field order.
pub open spec fn pairs_of(c: TokenClaimsView) -> Seq<JsonPairView> {
    seq![
        JsonPairView { key: ascii("sub"@), val: JsonValView::S(c.sub) },
        JsonPairView { key: ascii("username"@), val: JsonValView::S(c.username) },
        JsonPairView { key: ascii("profile_pic"@), val: JsonValView::S(c.profile_pic) },
        JsonPairView { key: ascii("exp"@), val: JsonValView::N(c.exp) },
        JsonPairView { key: ascii("iat"@), val: JsonValView::N(c.iat) },
        JsonPairView { key: ascii("nbf"@), val: opt_val_n(c.nbf) },
        JsonPairView { key: ascii("jti"@), val: opt_val_s(c.jti) },
        JsonPairView { key: ascii("device_id"@), val: opt_val_s(c.device_id) },
        JsonPairView { key: ascii("allowed_ips"@), val: opt_val_s(c.allowed_ips) },
    ]
}

/// The printed claim object.
pub open spec fn claims_bytes(c: TokenClaimsView) -> Seq<u8> {
    crate::json::object_bytes(pairs_of(c))
}

/// An optional numeric claim: absent or null is `None`; a string is refused.
pub open spec fn opt_n_of(o: Option<JsonValView>) -> Option<Option<u64>> {
    match o {
        None => Some(None),
        Some(JsonValView::Null) => Some(None),
        Some(JsonValView::N(n)) => Some(Some(n)),
        Some(JsonValView::S(_)) => None,
    }
}

/// An optional string claim: absent or null is `None`; a number is refused.
pub open spec fn opt_s_of(o: Option<JsonValView>) -> Option<Option<Seq<u8>>> {
    match o {
        None => Some(None),
        Some(JsonValView::Null) => Some(None),
        Some(JsonValView::S(s)) => Some(Some(s)),
        Some(JsonValView::N(_)) => None,
    }
}

/// Reads the claim record out of a parsed object.
pub open spec fn spec_claims_from(ps: Seq<JsonPairView>) -> Option<TokenClaimsView> {
    match (
        first_kv(ps, ascii("sub"@)),
        first_kv(ps, ascii("username"@)),
        first_kv(ps, ascii("profile_pic"@)),
        first_kv(ps, ascii("exp"@)),
        first_kv(ps, ascii("iat"@)),
    ) {
        (
            Some(JsonValView::S(sub)),
            Some(JsonValView::S(username)),
            Some(JsonValView::S(pic)),
            Some(JsonValView::N(exp)),
            Some(JsonValView::N(iat)),
        ) => {
            match (
                opt_n_of(first_kv(ps, ascii("nbf"@))),
                opt_s_of(first_kv(ps, ascii("jti"@))),
                opt_s_of(first_kv(ps, ascii("device_id"@))),
                opt_s_of(first_kv(ps, ascii("allowed_ips"@))),
            ) {
                (Some(nbf), Some(jti), Some(device_id), Some(allowed_ips)) => Some(
                    TokenClaimsView {
                        sub,
                        username,
                        profile_pic: pic,
                        exp,
                        iat,
                        nbf,
                        jti,
                        device_id,
                        allowed_ips,
                    },
                ),
                _ => None,
            }
        },
        _ => None,
    }
}

/// Executable claim extraction.
pub fn claims_from_pairs(ps: &Vec<JsonPair>) -> (r: Option<TokenClaims>)
    ensures
        match r {
            Some(c) => spec_claims_from(pv(ps@)) == Some(c@),
            None => spec_claims_from(pv(ps@)) is None,
        },
{
    proof {
        reveal_strlit("sub");
        reveal_strlit("username");
        reveal_strlit("profile_pic");
        reveal_strlit("exp");
        reveal_strlit("iat");
        reveal_strlit("nbf");
        reveal_strlit("jti");
        reveal_strlit("device_id");
        reveal_strlit("allowed_ips");
        assert(("sub").is_ascii());
        assert(("username").is_ascii());
        assert(("profile_pic").is_ascii());
        assert(("exp").is_ascii());
        assert(("iat").is_ascii());
        assert(("nbf").is_ascii());
        assert(("jti").is_ascii());
        assert(("device_id").is_ascii());
        assert(("allowed_ips").is_ascii());
    }
    let sub = match get_str(ps, "sub") {
        Some(v) => v,
        None => {
            return None;
        },
    };
    let username = match get_str(ps, "username") {
        Some(v) => v,
        None => {
            return None;
        },
    };
    let profile_pic = match get_str(ps, "profile_pic") {
        Some(v) => v,
        None => {
            return None;
        },
    };
    let exp = match get_num(ps, "exp") {
        Some(v) => v,
        None => {
            return None;
        },
    };
    let iat = match get_num(ps, "iat") {
        Some(v) => v,
        None => {
            return None;
        },
    };
    let nbf = match get_opt_num(ps, "nbf") {
        Some(v) => v,
        None => {
            return None;
        },
    };
    let jti = match get_opt_str(ps, "jti") {
        Some(v) => v,
        None => {
            return None;
        },
    };
    let device_id = match get_opt_str(ps, "device_id") {
        Some(v) => v,
        None => {
            return None;
        },
    };
    let allowed_ips = match get_opt_str(ps, "allowed_ips") {
        Some(v) => v,
        None => {
            return None;
        },
    };
    Some(
        TokenClaims { sub, username, profile_pic, exp, iat, nbf, jti, device_id, allowed_ips },
    )
}

/// A required string claim.
fn get_str(ps: &Vec<JsonPair>, key: &str) -> (r: Option<Vec<u8>>)
    requires
        key.is_ascii(),
    ensures
        match r {
            Some(v) => first_kv(pv(ps@), ascii(key@)) == Some(JsonValView::S(v@)),
            None => !(first_kv(pv(ps@), ascii(key@)) matches Some(JsonValView::S(_))),
        },
{
    let kb = key.as_bytes();
    proof {
        broadcast use vstd::string::is_ascii_spec_bytes;

        assert(kb@ =~= ascii(key@));
    }
    match lookup(ps, kb) {
        Some(JsonVal::S(v)) => Some(v),
        _ => None,
    }
}

/// A required numeric claim.
fn get_num(ps: &Vec<JsonPair>, key: &str) -> (r: Option<u64>)
    requires
        key.is_ascii(),
    ensures
        match r {
            Some(n) => first_kv(pv(ps@), ascii(key@)) == Some(JsonValView::N(n)),
            None => !(first_kv(pv(ps@), ascii(key@)) matches Some(JsonValView::N(_))),
        },
{
    let kb = key.as_bytes();
    proof {
        broadcast use vstd::string::is_ascii_spec_bytes;

        assert(kb@ =~= ascii(key@));
    }
    match lookup(ps, kb) {
        Some(JsonVal::N(n)) => Some(n),
        _ => None,
    }
}

/// An optional numeric claim.
fn get_opt_num(ps: &Vec<JsonPair>, key: &str) -> (r: Option<Option<u64>>)
    requires
        key.is_ascii(),
    ensures
        r == opt_n_of(first_kv(pv(ps@), ascii(key@))),
{
    let kb = key.as_bytes();
    proof {
        broadcast use vstd::string::is_ascii_spec_bytes;

        assert(kb@ =~= ascii(key@));
    }
    match lookup(ps, kb) {
        None => Some(None),
        Some(JsonVal::Null) => Some(None),
        Some(JsonVal::N(n)) => Some(Some(n)),
        Some(JsonVal::S(_)) => None,
    }
}

/// An optional string claim.
fn get_opt_str(ps: &Vec<JsonPair>, key: &str) -> (r: Option<Option<Vec<u8>>>)
    requires
        key.is_ascii(),
    ensures
        match r {
            Some(Some(v)) => opt_s_of(first_kv(pv(ps@), ascii(key@))) == Some(
                Some::<Seq<u8>>(v@),
            ),
            Some(None) => opt_s_of(first_kv(pv(ps@), ascii(key@))) == Some(
                None::<Seq<u8>>,
            ),
            None => opt_s_of(first_kv(pv(ps@), ascii(key@))) is None,
        },
{
    let kb = key.as_bytes();
    proof {
        broadcast use vstd::string::is_ascii_spec_bytes;

        assert(kb@ =~= ascii(key@));
    }
    match lookup(ps, kb) {
        None => Some(None),
        Some(JsonVal::Null) => Some(None),
        Some(JsonVal::S(v)) => Some(Some(v)),
        Some(JsonVal::N(_)) => None,
    }
}

// ---------------------------------------------------------------------------
// Verification.
// ---------------------------------------------------------------------------

/// Why a token was rejected.
#[derive(Debug, Clone, Copy, PartialEq, Eq, Structural)]
pub enum AuthError {
    Malformed,
    BadSignature,
    BadPayload,
    BadClaims,
    Expired,
    NotYetValid,
}

impl AuthError {
    /// The reason reported in the `ERROR :Authentication failed:` line.
    pub fn message(&self) -> (r: &'static str)
        ensures
            (self is Malformed ==> r@ == "invalid token format"@),
            (self is BadSignature ==> r@ == "invalid signature"@),
            (self is BadPayload ==> r@ == "invalid payload encoding"@),
            (self is BadClaims ==> r@ == "invalid claims"@),
            (self is Expired ==> r@ == "token expired"@),
            (self is NotYetValid ==> r@ == "token not yet valid"@),
    {
        match self {
            AuthError::Malformed => "invalid token format",
            AuthError::BadSignature => "invalid signature",
            AuthError::BadPayload => "invalid payload encoding",
            AuthError::BadClaims => "invalid claims",
            AuthError::Expired => "token expired",
            AuthError::NotYetValid => "token not yet valid",
        }
    }
}

/// Index of the first dot, or the length if there is none.
pub open spec fn dot_idx(s: Seq<u8>) -> int
    decreases s.len(),
{
    if s.len() == 0 {
        0
    } else if s[0] == 0x2e {
        0
    } else {
        1 + dot_idx(s.drop_first())
    }
}

pub proof fn lemma_dot_idx_at(s: Seq<u8>, i: int)
    requires
        0 <= i <= s.len(),
        forall|j: int| 0 <= j < i ==> s[j] != 0x2e,
        i < s.len() ==> s[i] == 0x2e,
    ensures
        dot_idx(s) == i,
    decreases i,
{
    if s.len() == 0 {
    } else if i == 0 {
    } else {
        assert(s[0] != 0x2e);
        assert forall|j: int| 0 <= j < i - 1 implies s.drop_first()[j] != 0x2e by {
            assert(s.drop_first()[j] == s[j + 1]);
        }
        if i < s.len() {
            assert(s.drop_first()[i - 1] == s[i]);
        }
        lemma_dot_idx_at(s.drop_first(), i - 1);
    }
}

/// What verification does: split at the two dots, check the signature over
/// the signing input, decode and parse the claims, then check the times.
pub open spec fn spec_verify(token: Seq<u8>, secret: Seq<u8>, now: u64) -> Result<
    TokenClaimsView,
    AuthError,
> {
    let i = dot_idx(token);
    if i == token.len() {
        Err(AuthError::Malformed)
    } else {
        let rest = token.skip(i + 1);
        let j = dot_idx(rest);
        if j == rest.len() {
            Err(AuthError::Malformed)
        } else {
            let p = rest.take(j);
            let sig = rest.skip(j + 1);
            let msg = token.take(i + 1 + j);
            if sig != hs256_sig_of(secret, msg) {
                Err(AuthError::BadSignature)
            } else {
                match b64url_decode_of(p) {
                    None => Err(AuthError::BadPayload),
                    Some(payload) => match spec_parse_object(payload) {
                        None => Err(AuthError::BadClaims),
                        Some(ps) => match spec_claims_from(ps) {
                            None => Err(AuthError::BadClaims),
                            Some(c) => if !(c.exp > now) {
                                Err(AuthError::Expired)
                            } else if c.nbf matches Some(n) && !(n < now) {
                                Err(AuthError::NotYetValid)
                            } else {
                                Ok(c)
                            },
                        },
                    },
                }
            }
        }
    }
}

/// Verifies a bearer token against the secret at time `now` and returns its
/// claims.
pub fn verify_token(token: &[u8], secret: &[u8], now: u64) -> (r: Result<TokenClaims, AuthError>)
    ensures
        (r matches Ok(c) ==> spec_verify(token@, secret@, now) == Ok::<
            TokenClaimsView,
            AuthError,
        >(c@)),
        (r matches Err(e) ==> spec_verify(token@, secret@, now) == Err::<
            TokenClaimsView,
            AuthError,
        >(e)),
{
    let n = token.len();
    let i = match find_byte(token, 0, 0x2e) {
        None => {
            proof {
                lemma_dot_idx_at(token@, token@.len() as int);
            }
            return Err(AuthError::Malformed);
        },
        Some(i) => i,
    };
    proof {
        lemma_dot_idx_at(token@, i as int);
    }
    let rest = vstd::slice::slice_subrange(token, i + 1, n);
    proof {
        assert(rest@ =~= token@.skip(i + 1));
    }
    let rn = rest.len();
    let j = match find_byte(rest, 0, 0x2e) {
        None => {
            proof {
                lemma_dot_idx_at(rest@, rest@.len() as int);
            }
            return Err(AuthError::Malformed);
        },
        Some(j) => j,
    };
    proof {
        lemma_dot_idx_at(rest@, j as int);
    }
    let p64 = vstd::slice::slice_subrange(rest, 0, j);
    let sig = vstd::slice::slice_subrange(rest, j + 1, rn);
    let msg = vstd::slice::slice_subrange(token, 0, i + 1 + j);
    proof {
        assert(p64@ =~= token@.skip(i + 1).take(j as int));
        assert(sig@ =~= token@.skip(i + 1).skip(j + 1));
        assert(msg@ =~= token@.take(i + 1 + j));
    }
    if !verify_hs256(sig, msg, secret) {
        return Err(AuthError::BadSignature);
    }
    let payload = match b64url_decode(p64) {
        None => {
            return Err(AuthError::BadPayload);
        },
        Some(p) => p,
    };
    let pairs = match parse_object(payload.as_slice()) {
        None => {
            return Err(AuthError::BadClaims);
        },
        Some(ps) => ps,
    };
    let claims = match claims_from_pairs(&pairs) {
        None => {
            return Err(AuthError::BadClaims);
        },
        Some(c) => c,
    };
    if !(claims.exp > now) {
        return Err(AuthError::Expired);
    }
    match claims.nbf {
        Some(nbf) => {
            if !(nbf < now) {
                return Err(AuthError::NotYetValid);
            }
        },
        None => {},
    }
    Ok(claims)
}

// ---------------------------------------------------------------------------
// Issuing.
// ---------------------------------------------------------------------------

/// Builds the claim object's pairs in the fixed field order.
fn claims_to_pairs(c: &TokenClaims) -> (r: Vec<JsonPair>)
    ensures
        pv(r@) == pairs_of(c@),
{
    proof {
        reveal_strlit("sub");
        reveal_strlit("username");
        reveal_strlit("profile_pic");
        reveal_strlit("exp");
        reveal_strlit("iat");
        reveal_strlit("nbf");
        reveal_strlit("jti");
        reveal_strlit("device_id");
        reveal_strlit("allowed_ips");
        assert(("sub").is_ascii());
        assert(("username").is_ascii());
        assert(("profile_pic").is_ascii());
        assert(("exp").is_ascii());
        assert(("iat").is_ascii());
        assert(("nbf").is_ascii());
        assert(("jti").is_ascii());
        assert(("device_id").is_ascii());
        assert(("allowed_ips").is_ascii());
    }
    let mut ps: Vec<JsonPair> = Vec::new();
    ps.push(JsonPair { key: lit_bytes("sub"), val: JsonVal::S(copy_bytes(c.sub.as_slice())) });
    ps.push(
        JsonPair { key: lit_bytes("username"), val: JsonVal::S(copy_bytes(c.username.as_slice())) },
    );
    ps.push(
        JsonPair {
            key: lit_bytes("profile_pic"),
            val: JsonVal::S(copy_bytes(c.profile_pic.as_slice())),
        },
    );
    ps.push(JsonPair { key: lit_bytes("exp"), val: JsonVal::N(c.exp) });
    ps.push(JsonPair { key: lit_bytes("iat"), val: JsonVal::N(c.iat) });
    ps.push(
        JsonPair {
            key: lit_bytes("nbf"),
            val: match c.nbf {
                Some(n) => JsonVal::N(n),
                None => JsonVal::Null,
            },
        },
    );
    ps.push(
        JsonPair {
            key: lit_bytes("jti"),
            val: match &c.jti {
                Some(v) => JsonVal::S(copy_bytes(v.as_slice())),
                None => JsonVal::Null,
            },
        },
    );
    ps.push(
        JsonPair {
            key: lit_bytes("device_id"),
            val: match &c.device_id {
                Some(v) => JsonVal::S(copy_bytes(v.as_slice())),
                None => JsonVal::Null,
            },
        },
    );
    ps.push(
        JsonPair {
            key: lit_bytes("allowed_ips"),
            val: match &c.allowed_ips {
                Some(v) => JsonVal::S(copy_bytes(v.as_slice())),
                None => JsonVal::Null,
            },
        },
    );
    proof {
        assert(pv(ps@) =~~= pairs_of(c@));
    }
    ps
}

/// The bytes of an ASCII literal as a fresh vector.
fn lit_bytes(s: &str) -> (r: Vec<u8>)
    requires
        s.is_ascii(),
    ensures
        r@ == ascii(s@),
{
    let mut v: Vec<u8> = Vec::new();
    crate::bytes::append_str(&mut v, s);
    proof {
        assert(v@ =~= ascii(s@));
    }
    v
}

/// Appends one printed member to `out`.
fn append_member(out: &mut Vec<u8>, p: &JsonPair)
    ensures
        final(out)@ == old(out)@ + crate::json::member_bytes(p@),
{
    crate::json::append_jstring(out, p.key.as_slice());
    out.push(0x3a);
    match &p.val {
        JsonVal::S(v) => crate::json::append_jstring(out, v.as_slice()),
        JsonVal::N(n) => crate::bytes::append_dec(out, *n),
        JsonVal::Null => {
            proof {
                reveal_strlit("null");
                assert(("null").is_ascii());
            }
            crate::bytes::append_str(out, "null");
        },
    }
    proof {
        assert(out@ =~= old(out)@ + crate::json::member_bytes(p@));
    }
}

/// Prints a flat object.
pub fn print_object(ps: &Vec<JsonPair>) -> (r: Vec<u8>)
    ensures
        r@ == crate::json::object_bytes(pv(ps@)),
{
    let mut out: Vec<u8> = Vec::new();
    out.push(0x7b);
    let n = ps.len();
    if n == 0 {
        out.push(0x7d);
        proof {
            assert(out@ =~= crate::json::object_bytes(pv(ps@)));
        }
        return out;
    }
    proof {
        assert(pv(ps@).skip(0) =~= pv(ps@));
        assert(out@ =~= seq![0x7bu8]);
    }
    let mut i: usize = 0;
    loop
        invariant
            n == ps@.len(),
            0 <= i < n,
            seq![0x7bu8] + crate::json::members_bytes(pv(ps@)) == out@
                + crate::json::members_bytes(pv(ps@).skip(i as int)),
        decreases n - i,
    {
        let ghost rem = pv(ps@).skip(i as int);
        proof {
            assert(rem[0] == ps@[i as int]@);
        }
        let ghost out0 = out@;
        append_member(&mut out, &ps[i]);
        if i + 1 == n {
            out.push(0x7d);
            proof {
                assert(rem.len() == 1);
                assert(crate::json::members_bytes(rem) == crate::json::member_bytes(rem[0])
                    + seq![0x7du8]);
                assert(out@ =~= out0 + crate::json::members_bytes(rem));
                assert(out@ =~= seq![0x7bu8] + crate::json::members_bytes(pv(ps@)));
                assert(crate::json::object_bytes(pv(ps@)) == seq![0x7bu8]
                    + crate::json::members_bytes(pv(ps@)));
            }
            return out;
        }
        out.push(0x2c);
        proof {
            assert(rem.len() > 1);
            assert(crate::json::members_bytes(rem) == crate::json::member_bytes(rem[0])
                + seq![0x2cu8] + crate::json::members_bytes(rem.drop_first()));
            assert(rem.drop_first() =~= pv(ps@).skip(i + 1));
            assert(out0 + crate::json::members_bytes(rem) =~= out@ + crate::json::members_bytes(
                pv(ps@).skip(i + 1),
            ));
        }
        i = i + 1;
    }
}

/// Prints the claim object.
pub fn print_claims(c: &TokenClaims) -> (r: Vec<u8>)
    ensures
        r@ == claims_bytes(c@),
{
    let ps = claims_to_pairs(c);
    print_object(&ps)
}

// ---------------------------------------------------------------------------
// Issuing.
// ---------------------------------------------------------------------------

/// `a + b`, stopping at the top of `u64`.
pub open spec fn sat_add(a: u64, b: u64) -> u64 {
    if a + b > u64::MAX {
        u64::MAX
    } else {
        (a + b) as u64
    }
}

/// `a * b`, stopping at the top of `u64`.
pub open spec fn sat_mul(a: u64, b: u64) -> u64 {
    if a * b > u64::MAX {
        u64::MAX
    } else {
        (a * b) as u64
    }
}

/// The lower-case hex digits of `n`, most significant first.
pub open spec fn hex_digits(n: nat) -> Seq<u8>
    decreases n,
{
    if n < 16 {
        seq![crate::json::hex_digit(n)]
    } else {
        hex_digits(n / 16).push(crate::json::hex_digit(n % 16))
    }
}

/// Appends the lower-case hex digits of `n` to `out`.
pub fn append_hex(out: &mut Vec<u8>, n: u64)
    ensures
        final(out)@ == old(out)@ + hex_digits(n as nat),
    decreases n,
{
    if n < 16 {
        let d = n as u8;
        out.push(if d < 10 { 0x30 + d } else { 0x57 + d });
        proof {
            assert(old(out)@.push(crate::json::hex_digit(n as nat)) =~= old(out)@ + hex_digits(
                n as nat,
            ));
        }
    } else {
        append_hex(out, n / 16);
        let d = (n % 16) as u8;
        out.push(if d < 10 { 0x30 + d } else { 0x57 + d });
        proof {
            assert((old(out)@ + hex_digits((n / 16) as nat)).push(
                crate::json::hex_digit((n as nat) % 16),
            ) =~= old(out)@ + hex_digits(n as nat));
        }
    }
}

/// The token id: the hex seed, a dash, and the hex issue time.
pub open spec fn jti_of(seed: u64, now: u64) -> Seq<u8> {
    hex_digits(seed as nat) + seq![0x2du8] + hex_digits(now as nat)
}

/// The fixed JWT header.
pub open spec fn header_bytes() -> Seq<u8> {
    ascii("{\"alg\":\"HS256\",\"typ\":\"JWT\"}"@)
}

/// The claims a token minted at `now` with the given inputs carries.
pub open spec fn claims_at(
    user_id: Seq<u8>,
    username: Seq<u8>,
    pic: Seq<u8>,
    days_valid: u64,
    now: u64,
    seed: u64,
    device_id: Option<Seq<u8>>,
    allowed_ips: Option<Seq<u8>>,
) -> TokenClaimsView {
    TokenClaimsView {
        sub: user_id,
        username,
        profile_pic: b64std_of(pic),
        exp: sat_add(now, sat_mul(days_valid, 86400)),
        iat: now,
        nbf: Some(now),
        jti: Some(jti_of(seed, now)),
        device_id,
        allowed_ips,
    }
}

/// The signed token text for a claim record.
pub open spec fn spec_issue(c: TokenClaimsView, secret: Seq<u8>) -> Seq<u8> {
    let si = b64url_of(header_bytes()) + seq![0x2eu8] + b64url_of(claims_bytes(c));
    si + seq![0x2eu8] + hs256_sig_of(secret, si)
}

/// Timestamps small enough to print within nineteen digits; string fields
/// round-trip for any bytes.
pub open spec fn claims_ok(c: TokenClaimsView) -> bool {
    &&& c.exp < 10000000000000000000
    &&& c.iat < 10000000000000000000
    &&& (c.nbf matches Some(n) ==> n < 10000000000000000000)
}

/// Well-behaved claims print to a well-behaved pair list.
pub proof fn lemma_pairs_ok(c: TokenClaimsView)
    requires
        claims_ok(c),
    ensures
        crate::json::wf_pairs(pairs_of(c)),
{
    let ps = pairs_of(c);
    assert forall|i: int|
        0 <= i < ps.len() implies ((#[trigger] ps[i]).val matches JsonValView::N(n) ==> n
        < 10000000000000000000) by {
        if i == 3 {
        } else if i == 4 {
        } else if i == 5 {
        } else {
            assert(i == 0 || i == 1 || i == 2 || i == 6 || i == 7 || i == 8);
        }
    }
}

/// Reading the printed pairs back yields the same claims.
#[verifier::rlimit(100)]
pub proof fn lemma_claims_extract(c: TokenClaimsView)
    ensures
        spec_claims_from(pairs_of(c)) == Some(c),
{
    reveal_strlit("sub");
    reveal_strlit("username");
    reveal_strlit("profile_pic");
    reveal_strlit("exp");
    reveal_strlit("iat");
    reveal_strlit("nbf");
    reveal_strlit("jti");
    reveal_strlit("device_id");
    reveal_strlit("allowed_ips");
    let k0 = ascii("sub"@);
    let k1 = ascii("username"@);
    let k2 = ascii("profile_pic"@);
    let k3 = ascii("exp"@);
    let k4 = ascii("iat"@);
    let k5 = ascii("nbf"@);
    let k6 = ascii("jti"@);
    let k7 = ascii("device_id"@);
    let k8 = ascii("allowed_ips"@);
    assert(k0.len() == 3 && k1.len() == 8 && k2.len() == 11 && k3.len() == 3 && k4.len() == 3
        && k5.len() == 3 && k6.len() == 3 && k7.len() == 9 && k8.len() == 11);
    assert(k0[0] != k3[0] && k0[0] != k4[0] && k0[0] != k5[0] && k0[0] != k6[0]);
    assert(k3[0] != k4[0] && k3[0] != k5[0] && k3[0] != k6[0]);
    assert(k4[0] != k5[0] && k4[0] != k6[0]);
    assert(k5[0] != k6[0]);
    assert(k2[0] != k8[0]);
    let ps = pairs_of(c);
    let s1 = ps.drop_first();
    let s2 = s1.drop_first();
    let s3 = s2.drop_first();
    let s4 = s3.drop_first();
    let s5 = s4.drop_first();
    let s6 = s5.drop_first();
    let s7 = s6.drop_first();
    let s8 = s7.drop_first();
    assert(first_kv(ps, k0) == Some(JsonValView::S(c.sub)));
    assert(first_kv(ps, k1) == first_kv(s1, k1));
    assert(first_kv(s1, k1) == Some(JsonValView::S(c.username)));
    assert(first_kv(ps, k2) == first_kv(s1, k2));
    assert(first_kv(s1, k2) == first_kv(s2, k2));
    assert(first_kv(s2, k2) == Some(JsonValView::S(c.profile_pic)));
    assert(first_kv(ps, k3) == first_kv(s1, k3));
    assert(first_kv(s1, k3) == first_kv(s2, k3));
    assert(first_kv(s2, k3) == first_kv(s3, k3));
    assert(first_kv(s3, k3) == Some(JsonValView::N(c.exp)));
    assert(first_kv(ps, k4) == first_kv(s1, k4));
    assert(first_kv(s1, k4) == first_kv(s2, k4));
    assert(first_kv(s2, k4) == first_kv(s3, k4));
    assert(first_kv(s3, k4) == first_kv(s4, k4));
    assert(first_kv(s4, k4) == Some(JsonValView::N(c.iat)));
    assert(first_kv(ps, k5) == first_kv(s1, k5));
    assert(first_kv(s1, k5) == first_kv(s2, k5));
    assert(first_kv(s2, k5) == first_kv(s3, k5));
    assert(first_kv(s3, k5) == first_kv(s4, k5));
    assert(first_kv(s4, k5) == first_kv(s5, k5));
    assert(first_kv(s5, k5) == Some(opt_val_n(c.nbf)));
    assert(first_kv(ps, k6) == first_kv(s1, k6));
    assert(first_kv(s1, k6) == first_kv(s2, k6));
    assert(first_kv(s2, k6) == first_kv(s3, k6));
    assert(first_kv(s3, k6) == first_kv(s4, k6));
    assert(first_kv(s4, k6) == first_kv(s5, k6));
    assert(first_kv(s5, k6) == first_kv(s6, k6));
    assert(first_kv(s6, k6) == Some(opt_val_s(c.jti)));
    assert(first_kv(ps, k7) == first_kv(s1, k7));
    assert(first_kv(s1, k7) == first_kv(s2, k7));
    assert(first_kv(s2, k7) == first_kv(s3, k7));
    assert(first_kv(s3, k7) == first_kv(s4, k7));
    assert(first_kv(s4, k7) == first_kv(s5, k7));
    assert(first_kv(s5, k7) == first_kv(s6, k7));
    assert(first_kv(s6, k7) == first_kv(s7, k7));
    assert(first_kv(s7, k7) == Some(opt_val_s(c.device_id)));
    assert(first_kv(ps, k8) == first_kv(s1, k8));
    assert(first_kv(s1, k8) == first_kv(s2, k8));
    assert(first_kv(s2, k8) == first_kv(s3, k8));
    assert(first_kv(s3, k8) == first_kv(s4, k8));
    assert(first_kv(s4, k8) == first_kv(s5, k8));
    assert(first_kv(s5, k8) == first_kv(s6, k8));
    assert(first_kv(s6, k8) == first_kv(s7, k8));
    assert(first_kv(s7, k8) == first_kv(s8, k8));
    assert(first_kv(s8, k8) == Some(opt_val_s(c.allowed_ips)));
}

/// No dots anywhere in `s`.
pub open spec fn dot_free(s: Seq<u8>) -> bool {
    forall|i: int| 0 <= i < s.len() ==> s[i] != 0x2e
}

/// A token assembled from dot-free segments with a matching signature and a
/// decodable payload verifies to its claims while they are timely.
pub proof fn lemma_verify_of_issue(
    c: TokenClaimsView,
    secret: Seq<u8>,
    h: Seq<u8>,
    p: Seq<u8>,
    now: u64,
)
    requires
        claims_ok(c),
        dot_free(h),
        dot_free(p),
        dot_free(hs256_sig_of(secret, h + seq![0x2eu8] + p)),
        b64url_decode_of(p) == Some(claims_bytes(c)),
        now < c.exp,
        (c.nbf matches Some(n) ==> n < now),
    ensures
        spec_verify(
            h + seq![0x2eu8] + p + seq![0x2eu8] + hs256_sig_of(secret, h + seq![0x2eu8] + p),
            secret,
            now,
        ) == Ok::<TokenClaimsView, AuthError>(c),
{
    let sg = hs256_sig_of(secret, h + seq![0x2eu8] + p);
    let token = h + seq![0x2eu8] + p + seq![0x2eu8] + sg;
    assert(token.len() == h.len() + 1 + p.len() + 1 + sg.len());
    assert forall|j: int| 0 <= j < h.len() implies token[j] != 0x2e by {
        assert(token[j] == h[j]);
    }
    assert(token[h.len() as int] == 0x2e);
    lemma_dot_idx_at(token, h.len() as int);
    let rest = token.skip(h.len() as int + 1);
    assert(rest =~= p + seq![0x2eu8] + sg);
    assert forall|j: int| 0 <= j < p.len() implies rest[j] != 0x2e by {
        assert(rest[j] == p[j]);
    }
    assert(rest[p.len() as int] == 0x2e);
    lemma_dot_idx_at(rest, p.len() as int);
    assert(rest.take(p.len() as int) =~= p);
    assert(rest.skip(p.len() as int + 1) =~= sg);
    assert(token.take(h.len() as int + 1 + p.len() as int) =~= h + seq![0x2eu8] + p);
    lemma_pairs_ok(c);
    crate::json::lemma_parse_object_bytes(pairs_of(c));
    lemma_claims_extract(c);
}

/// Mints bearer tokens under one server secret.
pub struct TokenGenerator {
    pub jwt_secret: Vec<u8>,
}

impl TokenGenerator {
    /// A generator for the given secret.
    pub fn new(jwt_secret: &[u8]) -> (g: TokenGenerator)
        ensures
            g.jwt_secret@ == jwt_secret@,
    {
        TokenGenerator { jwt_secret: copy_bytes(jwt_secret) }
    }

    /// Mints the token for the given inputs at time `now` with the given
    /// token-id seed. While the claims are timely, verifying the token
    /// against the same secret yields exactly the claims it was issued with.
    pub fn generate_token_at(
        &self,
        user_id: &[u8],
        username: &[u8],
        profile_pic_data: &[u8],
        days_valid: u64,
        now: u64,
        token_seed: u64,
        device_id: Option<&Vec<u8>>,
        allowed_ips: Option<&Vec<u8>>,
    ) -> (r: Vec<u8>)
        ensures
            ({
                let c = claims_at(
                    user_id@,
                    username@,
                    profile_pic_data@,
                    days_valid,
                    now,
                    token_seed,
                    crate::handler::oviewv(device_id),
                    crate::handler::oviewv(allowed_ips),
                );
                &&& r@ == spec_issue(c, self.jwt_secret@)
                &&& forall|t: u64|
                    claims_ok(c) && t < c.exp && (c.nbf matches Some(n) ==> n < t)
                        ==> spec_verify(r@, self.jwt_secret@, t) == Ok::<
                        TokenClaimsView,
                        AuthError,
                    >(c)
            }),
    {
        let ghost cg = claims_at(
            user_id@,
            username@,
            profile_pic_data@,
            days_valid,
            now,
            token_seed,
            crate::handler::oviewv(device_id),
            crate::handler::oviewv(allowed_ips),
        );
        // Assemble the claims.
        let pic64 = b64std_encode(profile_pic_data);
        let total: u64 = if days_valid <= u64::MAX / 86400 {
            days_valid * 86400
        } else {
            u64::MAX
        };
        proof {
            assert(total == sat_mul(days_valid, 86400)) by (nonlinear_arith)
                requires
                    total == if days_valid <= u64::MAX / 86400 {
                        (days_valid * 86400) as u64
                    } else {
                        u64::MAX
                    },
            ;
        }
        let exp: u64 = if now <= u64::MAX - total {
            now + total
        } else {
            u64::MAX
        };
        let mut jti: Vec<u8> = Vec::new();
        append_hex(&mut jti, token_seed);
        jti.push(0x2d);
        append_hex(&mut jti, now);
        let claims = TokenClaims {
            sub: copy_bytes(user_id),
            username: copy_bytes(username),
            profile_pic: pic64,
            exp,
            iat: now,
            nbf: Some(now),
            jti: Some(jti),
            device_id: match device_id {
                Some(v) => Some(copy_bytes(v.as_slice())),
                None => None,
            },
            allowed_ips: match allowed_ips {
                Some(v) => Some(copy_bytes(v.as_slice())),
                None => None,
            },
        };
        proof {
            assert(claims@ =~~= cg);
        }
        // Frame and sign.
        let payload = print_claims(&claims);
        proof {
            reveal_strlit("{\"alg\":\"HS256\",\"typ\":\"JWT\"}");
            assert(("{\"alg\":\"HS256\",\"typ\":\"JWT\"}").is_ascii());
        }
        let header = lit_bytes("{\"alg\":\"HS256\",\"typ\":\"JWT\"}");
        let h64 = b64url_encode(header.as_slice());
        let p64 = b64url_encode(payload.as_slice());
        let mut si: Vec<u8> = Vec::new();
        crate::bytes::append_bytes(&mut si, h64.as_slice());
        si.push(0x2e);
        crate::bytes::append_bytes(&mut si, p64.as_slice());
        proof {
            assert(si@ =~= h64@ + seq![0x2eu8] + p64@);
        }
        let sg = sign_hs256(self.jwt_secret.as_slice(), si.as_slice());
        let mut token = si;
        token.push(0x2e);
        crate::bytes::append_bytes(&mut token, sg.as_slice());
        proof {
            assert(token@ =~= spec_issue(cg, self.jwt_secret@));
            assert forall|t: u64|
                claims_ok(cg) && t < cg.exp && (cg.nbf matches Some(n) ==> n < t)
                    implies spec_verify(token@, self.jwt_secret@, t) == Ok::<
                TokenClaimsView,
                AuthError,
            >(cg) by {
                lemma_verify_of_issue(cg, self.jwt_secret@, h64@, p64@, t);
                assert(token@ =~= h64@ + seq![0x2eu8] + p64@ + seq![0x2eu8] + hs256_sig_of(
                    self.jwt_secret@,
                    h64@ + seq![0x2eu8] + p64@,
                ));
            }
        }
        token
    }

    /// Mints a token stamped with the current time and a fresh token id.
    pub fn generate_token(
        &self,
        user_id: &[u8],
        username: &[u8],
        profile_pic_data: &[u8],
        days_valid: u64,
        device_id: Option<&Vec<u8>>,
        allowed_ips: Option<&Vec<u8>>,
    ) -> (r: Vec<u8>)
        ensures
            exists|now: u64, seed: u64|
                r@ == spec_issue(
                    #[trigger] claims_at(
                        user_id@,
                        username@,
                        profile_pic_data@,
                        days_valid,
                        now,
                        seed,
                        crate::handler::oviewv(device_id),
                        crate::handler::oviewv(allowed_ips),
                    ),
                    self.jwt_secret@,
                ),
    {
        let now = now_unix();
        let seed = random_u64();
        let r = self.generate_token_at(
            user_id,
            username,
            profile_pic_data,
            days_valid,
            now,
            seed,
            device_id,
            allowed_ips,
        );
        proof {
            assert(r@ == spec_issue(
                claims_at(
                    user_id@,
                    username@,
                    profile_pic_data@,
                    days_valid,
                    now,
                    seed,
                    crate::handler::oviewv(device_id),
                    crate::handler::oviewv(allowed_ips),
                ),
                self.jwt_secret@,
            ));
        }
        r
    }
}

} // verus!