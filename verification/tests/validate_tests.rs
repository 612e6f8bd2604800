use tarascapay::error::AppError;
use tarascapay::validate::{amount_cents, currency, email, group_kind, non_empty, password};

fn bad_request_text<T: std::fmt::Debug>(r: Result<T, AppError>) -> String {
    match r {
        Err(AppError::BadRequest(m)) => m,
        other => panic!("expected a bad request, got {other:?}"),
    }
}

#[test]
fn accepts_reasonable_emails() {
    assert_eq!(email("  Hola@SoyGalo.com ").unwrap(), "hola@soygalo.com");
    assert!(email("a@b.co").is_ok());
}

#[test]
fn rejects_malformed_emails() {
    for bad in ["", "sinarroba", "@dominio.com", "usuario@", "a@b", "a b@c.com"] {
        assert!(email(bad).is_err(), "debería rechazar '{bad}'");
    }
}

#[test]
fn password_needs_eight_chars() {
    assert!(password("1234567").is_err());
    assert!(password("12345678").is_ok());
}

#[test]
fn currency_is_normalized() {
    assert_eq!(currency("ars").unwrap(), "ARS");
    assert!(currency("PESOS").is_err());
    assert!(currency("A1S").is_err());
}

#[test]
fn amounts_must_be_positive() {
    assert!(amount_cents(0).is_err());
    assert!(amount_cents(-100).is_err());
    assert!(amount_cents(1).is_ok());
}

#[test]
fn non_empty_trims_and_limits() {
    assert_eq!(non_empty("  hola  ", "el nombre", 10).unwrap(), "hola");
    assert!(non_empty("   ", "el nombre", 10).is_err());
    assert!(non_empty("demasiado largo de verdad", "el nombre", 5).is_err());
}

// ---------------------------------------------------------------------------

#[test]
fn validation_messages() {
    assert_eq!(bad_request_text(non_empty("  ", "el nombre", 10)), "el nombre no puede estar vacío");
    assert_eq!(
        bad_request_text(non_empty("abcdef", "el nombre", 5)),
        "el nombre no puede superar los 5 caracteres"
    );
    assert_eq!(bad_request_text(amount_cents(0)), "el importe debe ser mayor a cero");
    assert_eq!(
        bad_request_text(amount_cents(1_000_000_000_000_001)),
        "el importe es demasiado grande"
    );
    assert_eq!(amount_cents(1_000_000_000_000_000).unwrap(), 1_000_000_000_000_000);
    assert_eq!(
        bad_request_text(currency("PESOS")),
        "la moneda debe ser un código de 3 letras (ej. ARS, USD, EUR)"
    );
    assert_eq!(bad_request_text(email("sinarroba")), "el email no es válido");
}

#[test]
fn group_kinds_are_checked() {
    assert_eq!(group_kind(" Trip ").unwrap(), "trip");
    assert_eq!(group_kind("other").unwrap(), "other");
    assert_eq!(
        bad_request_text(group_kind("viaje")),
        "el tipo de grupo no es válido (trip, home, couple, event, other)"
    );
}

#[test]
fn passwords_have_an_upper_limit() {
    assert_eq!(bad_request_text(password(&"x".repeat(257))), "la contraseña es demasiado larga");
    assert!(password(&"x".repeat(256)).is_ok());
    // The upper limit counts bytes: 129 two-byte characters are too many.
    assert!(password(&"ñ".repeat(129)).is_err());
    assert_eq!(
        bad_request_text(password("corta")),
        "la contraseña debe tener al menos 8 caracteres"
    );
}
