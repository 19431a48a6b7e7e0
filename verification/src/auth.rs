use base64::Engine;
use vstd::prelude::*;

use crate::text::{
    bounds_ok, chars_of, contains_exec, contains_seq, lemma_replace_absent, lemma_replace_front,
    lemma_replace_keeps_front, occurs_at, piece, replace_all, replace_exec,
    split_by, split_ranges, string_of, trim, trim_ws,
};

verus! {

// ---------------------------------------------------------------------------
// Base64 (URL-safe alphabet)
// ---------------------------------------------------------------------------

/// What `base64::engine::general_purpose::URL_SAFE_NO_PAD.decode` gives for
/// the bytes of `input`: the decoded bytes, or the text of its error.
pub uninterp spec fn url_safe_no_pad_decoding(input: Seq<char>) -> Result<Seq<u8>, Seq<char>>;

/// What `base64::engine::general_purpose::URL_SAFE.decode` gives for the
/// bytes of `input`: the decoded bytes, or the text of its error.
pub uninterp spec fn url_safe_decoding(input: Seq<char>) -> Result<Seq<u8>, Seq<char>>;

/// `URL_SAFE_NO_PAD.decode(input)`, with the error rendered by `Display`.
/// Claimed: the outcome is a function of `input` alone.
#[verifier::external_body]
fn decode_url_safe_no_pad(input: &str) -> (r: Result<Vec<u8>, String>)
    ensures
        match r {
            Ok(v) => url_safe_no_pad_decoding(input@) == Ok::<Seq<u8>, Seq<char>>(v@),
            Err(e) => url_safe_no_pad_decoding(input@) == Err::<Seq<u8>, Seq<char>>(e@),
        },
{
    base64::engine::general_purpose::URL_SAFE_NO_PAD.decode(input).map_err(|e| e.to_string())
}

/// `URL_SAFE.decode(input)`, with the error rendered by `Display`.
/// Claimed: the outcome is a function of `input` alone.
#[verifier::external_body]
fn decode_url_safe(input: &str) -> (r: Result<Vec<u8>, String>)
    ensures
        match r {
            Ok(v) => url_safe_decoding(input@) == Ok::<Seq<u8>, Seq<char>>(v@),
            Err(e) => url_safe_decoding(input@) == Err::<Seq<u8>, Seq<char>>(e@),
        },
{
    base64::engine::general_purpose::URL_SAFE.decode(input).map_err(|e| e.to_string())
}

// ---------------------------------------------------------------------------
// JWT payload
// ---------------------------------------------------------------------------

pub open spec fn not_a_jwt() -> Seq<char> {
    "access token is not a JWT"@
}

pub open spec fn decode_prefix() -> Seq<char> {
    "decode JWT payload: "@
}

/// The payload of a JWT: its second `.`-separated piece.
pub open spec fn jwt_payload_spec(jwt: Seq<char>) -> Option<Seq<char>> {
    let ps = split_by(jwt, '.');
    if ps.len() >= 2 {
        Some(ps[1])
    } else {
        None
    }
}

/// The decoded payload of a JWT: URL-safe base64 without padding, or else
/// with padding; the error is that of the padded attempt.
pub open spec fn jwt_payload_bytes_spec(jwt: Seq<char>) -> Result<Seq<u8>, Seq<char>> {
    match jwt_payload_spec(jwt) {
        None => Err(not_a_jwt()),
        Some(p) => match url_safe_no_pad_decoding(p) {
            Ok(v) => Ok(v),
            Err(_) => match url_safe_decoding(p) {
                Ok(v) => Ok(v),
                Err(e) => Err(decode_prefix() + e),
            },
        },
    }
}

/// The bytes of a JWT's payload (its claims, as JSON), or why they cannot be had.
pub fn jwt_payload_bytes(jwt: &str) -> (r: Result<Vec<u8>, String>)
    ensures
        match r {
            Ok(v) => jwt_payload_bytes_spec(jwt@) == Ok::<Seq<u8>, Seq<char>>(v@),
            Err(e) => jwt_payload_bytes_spec(jwt@) == Err::<Seq<u8>, Seq<char>>(e@),
        },
{
    let cs = chars_of(jwt);
    let ps = split_ranges(&cs, 0, cs.len(), '.');
    assert(cs@.subrange(0, cs.len() as int) =~= jwt@);
    if ps.len() < 2 {
        let msg = "access token is not a JWT";
        proof {
            reveal_strlit("access token is not a JWT");
        }
        return Err(String::from_str(msg));
    }
    assert(bounds_ok(ps@[1], cs.len() as int));
    assert(piece(cs@, ps@[1]) == split_by(jwt@, '.')[1]);
    let (a, b) = ps[1];
    let payload = string_of(crate::text::slice_of(&cs, a, b).as_slice());
    match decode_url_safe_no_pad(payload.as_str()) {
        Ok(v) => Ok(v),
        Err(_) => match decode_url_safe(payload.as_str()) {
            Ok(v) => Ok(v),
            Err(e) => {
                let mut msg = String::from_str("decode JWT payload: ");
                proof {
                    reveal_strlit("decode JWT payload: ");
                }
                msg.append(e.as_str());
                Err(msg)
            },
        },
    }
}

pub open spec fn claims_prefix() -> Seq<char> {
    "parse JWT claims: "@
}

pub open spec fn missing_sub() -> Seq<char> {
    "JWT missing sub"@
}

/// The `sub` claim from the parsed claims (`Ok(sub)`, or `Err` with the JSON
/// error's text): an empty `sub` is an error.
pub open spec fn claims_sub_spec(parsed: Result<Seq<char>, Seq<char>>) -> Result<Seq<char>, Seq<char>> {
    match parsed {
        Err(e) => Err(claims_prefix() + e),
        Ok(sub) => if sub.len() == 0 {
            Err(missing_sub())
        } else {
            Ok(sub)
        },
    }
}

/// The subject of a JWT, from the outcome of reading its claims.
pub fn sub_from_claims(parsed: Result<String, String>) -> (r: Result<String, String>)
    ensures
        match r {
            Ok(s) => claims_sub_spec(
                match parsed {
                    Ok(s) => Ok(s@),
                    Err(e) => Err(e@),
                },
            ) == Ok::<Seq<char>, Seq<char>>(s@),
            Err(e) => claims_sub_spec(
                match parsed {
                    Ok(s) => Ok(s@),
                    Err(e) => Err(e@),
                },
            ) == Err::<Seq<char>, Seq<char>>(e@),
        },
{
    match parsed {
        Err(e) => {
            let mut msg = String::from_str("parse JWT claims: ");
            proof {
                reveal_strlit("parse JWT claims: ");
            }
            msg.append(e.as_str());
            Err(msg)
        },
        Ok(sub) => {
            if sub.as_str().unicode_len() == 0 {
                proof {
                    reveal_strlit("JWT missing sub");
                }
                Err(String::from_str("JWT missing sub"))
            } else {
                Ok(sub)
            }
        },
    }
}


// ---------------------------------------------------------------------------
// Session cookie
// ---------------------------------------------------------------------------

pub open spec fn sep() -> Seq<char> {
    seq![':', ':']
}

pub open spec fn encoded_sep_upper() -> Seq<char> {
    seq!['%', '3', 'A', '%', '3', 'A']
}

pub open spec fn encoded_sep_lower() -> Seq<char> {
    seq!['%', '3', 'a', '%', '3', 'a']
}

/// A pasted session token with its URL-encoded `::` (`%3A%3A` or `%3a%3a`)
/// decoded.
pub open spec fn decoded_token(raw: Seq<char>) -> Seq<char> {
    replace_all(replace_all(raw, encoded_sep_upper(), sep()), encoded_sep_lower(), sep())
}

/// Decoding `%3A%3A` leaves a lower-case `%3a%3a` (and the `%`-free rest) alone.
proof fn lemma_lower_sep_untouched(b: Seq<char>)
    requires
        forall|i: int| 0 <= i < b.len() ==> b[i] != '%',
    ensures
        replace_all(encoded_sep_lower() + b, encoded_sep_upper(), sep()) == encoded_sep_lower()
            + b,
{
    let up = encoded_sep_upper();
    let t2 = seq!['%', '3', 'a'] + b;
    let t1 = seq!['3', 'a'] + t2;
    let t = seq!['%'] + t1;
    assert(t =~= encoded_sep_lower() + b);
    lemma_replace_absent(b, up, sep());
    lemma_replace_keeps_front(seq!['3', 'a'], b, up, sep());
    // "%3a..." does not start with "%3A%3A"
    assert(!occurs_at(t2, up, 0)) by {
        if t2.len() >= 6 {
            assert(t2.subrange(0, 6)[2] == 'a');
        }
    }
    assert(t2.drop_first() =~= seq!['3', 'a'] + b);
    assert(replace_all(t2, up, sep()) == seq![t2[0]] + replace_all(t2.drop_first(), up, sep()));
    assert(replace_all(t2, up, sep()) =~= t2);
    lemma_replace_keeps_front(seq!['3', 'a'], t2, up, sep());
    assert(!occurs_at(t, up, 0)) by {
        assert(t.subrange(0, 6)[2] == 'a');
    }
    assert(t.drop_first() =~= t1);
    assert(replace_all(t, up, sep()) == seq![t[0]] + replace_all(t1, up, sep()));
    assert(replace_all(t, up, sep()) =~= t);
}

/// A pasted `<sub>%3A%3A<jwt>` (in either case) decodes to `<sub>::<jwt>`, and
/// a token without `%` is left as it is.
pub proof fn lemma_decoded_token(a: Seq<char>, b: Seq<char>)
    requires
        forall|i: int| 0 <= i < a.len() ==> a[i] != '%',
        forall|i: int| 0 <= i < b.len() ==> b[i] != '%',
    ensures
        decoded_token(a) == a,
        decoded_token(a + "%3A%3A"@ + b) == a + "::"@ + b,
        decoded_token(a + "%3a%3a"@ + b) == a + "::"@ + b,
{
    reveal_strlit("%3A%3A");
    reveal_strlit("%3a%3a");
    reveal_strlit("::");
    let up = encoded_sep_upper();
    let lo = encoded_sep_lower();
    assert(up =~= "%3A%3A"@ && lo =~= "%3a%3a"@ && sep() =~= "::"@);
    // no '%' at all: nothing changes
    lemma_replace_absent(a, up, sep());
    lemma_replace_absent(a, lo, sep());
    // `a`, then the upper-case separator, then `b`
    assert(a + up + b =~= a + (up + b));
    lemma_replace_keeps_front(a, up + b, up, sep());
    lemma_replace_front(b, up, sep());
    lemma_replace_absent(b, up, sep());
    let once = a + sep() + b;
    assert(a + (sep() + b) =~= once);
    assert forall|i: int| 0 <= i < once.len() implies once[i] != lo[0] by {
        if a.len() <= i < a.len() + 2 {
            assert(once[i] == ':');
        } else if i >= a.len() + 2 {
            assert(once[i] == b[i - a.len() - 2]);
        }
    }
    lemma_replace_absent(once, lo, sep());
    // `a`, then the lower-case separator, then `b`
    let s2 = a + lo + b;
    assert(s2 =~= a + (lo + b));
    lemma_replace_keeps_front(a, lo + b, up, sep());
    lemma_lower_sep_untouched(b);
    lemma_replace_keeps_front(a, lo + b, lo, sep());
    lemma_replace_front(b, lo, sep());
    lemma_replace_absent(b, lo, sep());
}

/// A session token that may still lack the user id in front of it.
pub enum CookieValue {
    /// Already of the form `<sub>::<jwt>`.
    Complete(String),
    /// A bare JWT: the cookie is `<sub>::<jwt>` with `sub` read from its claims.
    NeedsSubject(String),
}

/// Accepts a pasted `WorkosCursorSessionToken` (`sub::jwt`, possibly
/// URL-encoded) or a bare JWT.
pub fn normalize_cookie_value(raw: &str) -> (r: CookieValue)
    ensures
        match r {
            CookieValue::Complete(c) => c@ == decoded_token(raw@) && contains_seq(
                decoded_token(raw@),
                sep(),
            ),
            CookieValue::NeedsSubject(j) => j@ == decoded_token(raw@) && !contains_seq(
                decoded_token(raw@),
                sep(),
            ),
        },
{
    let cs = chars_of(raw);
    let upper: Vec<char> = vec!['%', '3', 'A', '%', '3', 'A'];
    let lower: Vec<char> = vec!['%', '3', 'a', '%', '3', 'a'];
    let sep2: Vec<char> = vec![':', ':'];
    assert(upper@ =~= encoded_sep_upper());
    assert(lower@ =~= encoded_sep_lower());
    assert(sep2@ =~= sep());
    let once = replace_exec(&cs, upper.as_slice(), sep2.as_slice());
    let decoded = replace_exec(&once, lower.as_slice(), sep2.as_slice());
    let text = string_of(decoded.as_slice());
    if contains_exec(&decoded, sep2.as_slice()) {
        CookieValue::Complete(text)
    } else {
        CookieValue::NeedsSubject(text)
    }
}

/// The cookie value `<sub>::<jwt>`.
pub fn session_cookie(sub: &str, jwt: &str) -> (r: String)
    ensures
        r@ == sub@ + sep() + jwt@,
{
    let mut r = String::from_str(sub);
    proof {
        reveal_strlit("::");
    }
    r.append("::");
    r.append(jwt);
    r
}

/// The `Cookie` header that carries the session: `WorkosCursorSessionToken=<cookie>`.
pub fn cookie_header(cookie: &str) -> (r: String)
    ensures
        r@ == "WorkosCursorSessionToken="@ + cookie@,
{
    let mut r = String::from_str("WorkosCursorSessionToken=");
    r.append(cookie);
    r
}

/// A token given in the environment, trimmed; `None` when it is blank.
pub fn token_from_env(raw: &str) -> (r: Option<String>)
    ensures
        match r {
            Some(t) => t@ == trim_ws(raw@) && t@.len() > 0,
            None => trim_ws(raw@).len() == 0,
        },
{
    let t = trim(raw);
    if t.len() == 0 {
        None
    } else {
        Some(string_of(t.as_slice()))
    }
}

pub open spec fn empty_token() -> Seq<char> {
    "cursorAuth/accessToken is empty — sign in to Cursor"@
}

/// The access token stored by the Cursor app, trimmed; an error when blank.
pub fn access_token_from_store(stored: &str) -> (r: Result<String, String>)
    ensures
        match r {
            Ok(t) => t@ == trim_ws(stored@) && t@.len() > 0,
            Err(e) => trim_ws(stored@).len() == 0 && e@ == empty_token(),
        },
{
    let t = trim(stored);
    if t.len() == 0 {
        Err(String::from_str("cursorAuth/accessToken is empty — sign in to Cursor"))
    } else {
        Ok(string_of(t.as_slice()))
    }
}

} // verus!
