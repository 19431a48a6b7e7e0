use cursor_stats::auth::{
    access_token_from_store, cookie_header, jwt_payload_bytes, normalize_cookie_value,
    session_cookie, sub_from_claims, token_from_env, CookieValue,
};

#[test]
fn pasted_session_tokens_are_decoded() {
    match normalize_cookie_value("user_1%3A%3Aey.jwt.sig") {
        CookieValue::Complete(c) => assert_eq!(c, "user_1::ey.jwt.sig"),
        CookieValue::NeedsSubject(_) => panic!("expected a complete cookie"),
    }
    match normalize_cookie_value("user_1%3a%3aey.jwt.sig") {
        CookieValue::Complete(c) => assert_eq!(c, "user_1::ey.jwt.sig"),
        CookieValue::NeedsSubject(_) => panic!("expected a complete cookie"),
    }
    match normalize_cookie_value("user_1::ey.jwt.sig") {
        CookieValue::Complete(c) => assert_eq!(c, "user_1::ey.jwt.sig"),
        CookieValue::NeedsSubject(_) => panic!("expected a complete cookie"),
    }
}

#[test]
fn bare_jwts_need_their_subject() {
    match normalize_cookie_value("aaa.bbb.ccc") {
        CookieValue::NeedsSubject(j) => assert_eq!(j, "aaa.bbb.ccc"),
        CookieValue::Complete(_) => panic!("expected a bare JWT"),
    }
    match normalize_cookie_value("a%3A%3") {
        CookieValue::NeedsSubject(j) => assert_eq!(j, "a%3A%3"),
        CookieValue::Complete(_) => panic!("expected a bare JWT"),
    }
}

#[test]
fn jwt_payloads_are_url_safe_base64() {
    // {"sub":"user_1"}
    let jwt = "eyJhbGciOiJIUzI1NiJ9.eyJzdWIiOiJ1c2VyXzEifQ.sig";
    assert_eq!(jwt_payload_bytes(jwt).unwrap(), br#"{"sub":"user_1"}"#.to_vec());
    // with padding, the second decoder takes it
    let padded = "h.eyJzdWIiOiJ1c2VyXzEifQ==.s";
    assert_eq!(jwt_payload_bytes(padded).unwrap(), br#"{"sub":"user_1"}"#.to_vec());
    // '-' and '_' belong to the URL-safe alphabet: [0xfb, 0xff] is "-_8"
    assert_eq!(jwt_payload_bytes("h.-_8.s").unwrap(), vec![0xfb, 0xff]);
}

#[test]
fn jwt_payload_errors() {
    assert_eq!(jwt_payload_bytes("no-dots-here").unwrap_err(), "access token is not a JWT");
    let e = jwt_payload_bytes("h.$$$.s").unwrap_err();
    assert!(e.starts_with("decode JWT payload: "), "{e}");
    assert!(e.len() > "decode JWT payload: ".len());
}

#[test]
fn subjects_from_claims() {
    assert_eq!(sub_from_claims(Ok("user_1".into())), Ok("user_1".into()));
    assert_eq!(sub_from_claims(Ok(String::new())), Err("JWT missing sub".into()));
    assert_eq!(sub_from_claims(Err("eof".into())), Err("parse JWT claims: eof".into()));
}

#[test]
fn cookies_and_headers() {
    assert_eq!(session_cookie("user_1", "a.b.c"), "user_1::a.b.c");
    assert_eq!(cookie_header("user_1::a.b.c"), "WorkosCursorSessionToken=user_1::a.b.c");
}

#[test]
fn tokens_are_trimmed() {
    assert_eq!(token_from_env("  tok \n").as_deref(), Some("tok"));
    assert_eq!(token_from_env(" \t "), None);
    assert_eq!(access_token_from_store(" jwt ").as_deref(), Ok("jwt"));
    assert_eq!(
        access_token_from_store("   ").unwrap_err(),
        "cursorAuth/accessToken is empty — sign in to Cursor"
    );
}
