use tarascapay::auth::{
    bearer_token, check_current_password, ensure_email_free, hash_password, login_check,
    normalize_login_email, query_token, request_token, session_claims, token_user, urldecode,
    verify_password,
};
use tarascapay::error::AppError;

#[test]
fn password_roundtrip() {
    let hash = hash_password("tarasca-2026").unwrap();
    assert!(verify_password("tarasca-2026", &hash));
    assert!(!verify_password("otra-cosa", &hash));
}

#[test]
fn hashes_are_salted() {
    let a = hash_password("misma-clave").unwrap();
    let b = hash_password("misma-clave").unwrap();
    assert_ne!(a, b, "dos hashes de la misma clave no deben coincidir");
}

#[test]
fn urldecode_handles_escapes() {
    assert_eq!(urldecode("abc.def"), "abc.def");
    assert_eq!(urldecode("a%2Eb"), "a.b");
}

// ---------------------------------------------------------------------------

fn unauthorized_text<T: std::fmt::Debug>(r: Result<T, AppError>) -> String {
    match r {
        Err(AppError::Unauthorized(m)) => m,
        other => panic!("expected unauthorized, got {other:?}"),
    }
}

#[test]
fn urldecode_edge_cases() {
    assert_eq!(urldecode("a+b"), "a b");
    assert_eq!(urldecode("%zz"), "%zz");
    assert_eq!(urldecode("%4"), "%4");
    assert_eq!(urldecode("%2"), "%2");
    assert_eq!(urldecode("%+f"), "\u{f}");
    assert_eq!(urldecode("%41%42"), "AB");
    assert_eq!(urldecode(""), "");
}

#[test]
fn verify_rejects_what_is_not_a_hash() {
    assert!(!verify_password("tarasca-2026", "no-es-un-hash"));
}

#[test]
fn bearer_headers() {
    assert_eq!(bearer_token("Bearer abc.def").as_deref(), Some("abc.def"));
    assert_eq!(bearer_token("bearer  abc  ").as_deref(), Some("abc"));
    assert_eq!(bearer_token("Bearer    "), None);
    assert_eq!(bearer_token("Basic abc"), None);
    assert_eq!(bearer_token("BEARER abc"), None);
}

#[test]
fn token_in_the_query_string() {
    assert_eq!(query_token("token=abc").as_deref(), Some("abc"));
    assert_eq!(query_token("a=1&token=x%2Ey&token=z").as_deref(), Some("x.y"));
    assert_eq!(query_token("tokens=1&b"), None);
    assert_eq!(query_token("token"), None);
    assert_eq!(query_token("x=token=1"), None);
    assert_eq!(query_token("&&token=").as_deref(), Some(""));
    assert_eq!(query_token(""), None);
}

#[test]
fn request_token_prefers_the_header() {
    assert_eq!(request_token(Some("Bearer h"), Some("token=q")).unwrap(), "h");
    assert_eq!(request_token(Some("Basic h"), Some("token=q")).unwrap(), "q");
    assert_eq!(request_token(None, Some("token=q")).unwrap(), "q");
    assert_eq!(
        unauthorized_text(request_token(None, Some("a=b"))),
        "falta el token de autenticación"
    );
    assert_eq!(unauthorized_text(request_token(None, None)), "falta el token de autenticación");
}

#[test]
fn session_tokens_name_their_user() {
    let id = 0x0123_4567_89ab_cdef_0123_4567_89ab_cdefu128;
    let claims = session_claims(id, 1_000, 2);
    assert_eq!(claims.sub, uuid::Uuid::from_u128(id).to_string());
    assert_eq!(claims.iat, 1_000);
    assert_eq!(claims.exp, 1_000 + 7_200);
    assert_eq!(token_user(Some(claims.sub.as_str())).unwrap(), id);
    assert_eq!(unauthorized_text(token_user(Some("no-es-un-id"))), "token mal formado");
    assert_eq!(unauthorized_text(token_user(None)), "sesión inválida o expirada");
}

#[test]
fn signing_in() {
    let hash = hash_password("tarasca-2026").unwrap();
    assert!(login_check("tarasca-2026", Some(&hash)).is_ok());
    assert_eq!(
        unauthorized_text(login_check("otra", Some(&hash))),
        "email o contraseña incorrectos"
    );
    assert_eq!(unauthorized_text(login_check("tarasca-2026", None)), "email o contraseña incorrectos");
    assert!(check_current_password("tarasca-2026", &hash).is_ok());
    assert_eq!(
        unauthorized_text(check_current_password("otra", &hash)),
        "la contraseña actual no es correcta"
    );
    assert_eq!(normalize_login_email("  Hola@SoyGalo.COM "), "hola@soygalo.com");
    assert!(ensure_email_free(false).is_ok());
    assert!(matches!(ensure_email_free(true), Err(AppError::Conflict(m)) if m == "ya existe una cuenta con ese email"));
}

#[test]
fn fully_escaped_text_decodes_back() {
    let s = "eyJhbGciOi.J9-_x";
    let enc: String = s.bytes().map(|b| format!("%{:02X}", b)).collect();
    assert_eq!(urldecode(&enc), s);
}
