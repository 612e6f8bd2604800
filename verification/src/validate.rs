//! Input validation shared by the request handlers.
use vstd::prelude::*;
use vstd::utf8::encode_utf8;
use crate::error::{AppError, is_bad_request};
use crate::text::{
    chars_of, has_char, lowercase_of, push_decimal, push_str, string_from, string_of, to_lowercase,
    to_uppercase, trim_text, trimmed, uppercase_of, decimal, is_ascii_letter, ascii_letter,
};

verus! {

/// Position of the first `c` in `s`, if any.
pub fn find_char(s: &[char], c: char) -> (r: Option<usize>)
    ensures
        r matches Some(i) ==> i < s@.len() && s@[i as int] == c && forall|k: int|
            0 <= k < i ==> s@[k] != c,
        r is None ==> !s@.contains(c),
{
    let mut i: usize = 0;
    while i < s.len()
        invariant
            i <= s.len(),
            forall|k: int| 0 <= k < i ==> s@[k] != c,
        decreases s.len() - i,
    {
        if s[i] == c {
            return Some(i);
        }
        i = i + 1;
    }
    None
}

// ---------------------------------------------------------------------------
// Email
// ---------------------------------------------------------------------------

/// A normalized email is acceptable: 3 to 254 bytes, an `@` with something
/// before it, a domain after the first `@` that holds a dot and neither
/// starts nor ends with one, and no space anywhere.
/// Length in bytes of the UTF-8 encoding of `s`, as `str::len` reports it.
pub open spec fn byte_len(s: Seq<char>) -> usize {
    encode_utf8(s).len() as usize
}

pub open spec fn email_ok(e: Seq<char>) -> bool {
    let n = byte_len(e);
    &&& 3 <= n <= 254
    &&& exists|at: int|
        0 <= at < e.len() && e[at] == '@' && (forall|k: int| 0 <= k < at ==> e[k] != '@') && {
            let local = e.subrange(0, at);
            let domain = e.subrange(at + 1, e.len() as int);
            &&& local.len() > 0
            &&& domain.len() > 0
            &&& domain.contains('.')
            &&& domain[0] != '.'
            &&& domain.last() != '.'
        }
    &&& !e.contains(' ')
}

pub open spec fn email_refusal() -> Seq<char> {
    "el email no es válido"@
}

/// Accepts an already normalized email as it is, or refuses it.
pub fn accept_email(email: String) -> (r: Result<String, AppError>)
    ensures
        email_ok(email@) ==> r == Ok::<String, AppError>(email),
        !email_ok(email@) ==> is_bad_request(r, email_refusal()),
{
    let n = email.as_str().len();
    if n < 3 || n > 254 {
        return Err(AppError::BadRequest(string_from("el email no es válido")));
    }
    let e = chars_of(email.as_str());
    // Minimal structural check: one `@`, something before it, and a dotted domain.
    let at = match find_char(&e, '@') {
        Some(at) => at,
        None => {
            return Err(AppError::BadRequest(string_from("el email no es válido")));
        },
    };
    assert(at < e.len());
    let mut domain: Vec<char> = Vec::new();
    let mut k: usize = at + 1;
    while k < e.len()
        invariant
            at < e.len(),
            at + 1 <= k <= e.len(),
            domain@ == e@.subrange(at + 1, k as int),
        decreases e.len() - k,
    {
        domain.push(e[k]);
        k = k + 1;
        assert(domain@ =~= e@.subrange(at + 1, k as int));
    }
    let looks_valid = at > 0 && domain.len() > 0 && has_char(&domain, '.') && domain[0] != '.'
        && domain[domain.len() - 1] != '.' && !has_char(&e, ' ');
    proof {
        let ee = email@;
        if email_ok(ee) {
            let at2 = choose|at2: int|
                0 <= at2 < ee.len() && ee[at2] == '@' && (forall|k: int| 0 <= k < at2 ==> ee[k] != '@')
                    && {
                    let local = ee.subrange(0, at2);
                    let domain = ee.subrange(at2 + 1, ee.len() as int);
                    &&& local.len() > 0
                    &&& domain.len() > 0
                    &&& domain.contains('.')
                    &&& domain[0] != '.'
                    &&& domain.last() != '.'
                };
            if at2 < at {
                assert(e@[at2] == '@');
            } else if at < at2 {
                assert(ee[at as int] == '@');
            }
            assert(at2 == at);
            assert(looks_valid);
        }
        if looks_valid {
            assert(ee.subrange(0, at as int).len() > 0);
            assert(ee.subrange(at + 1, ee.len() as int) == domain@);
            assert(domain@[0] == domain[0]);
            assert(domain@.last() == domain[domain.len() - 1]);
            let local = ee.subrange(0, at as int);
            let dom = ee.subrange(at + 1, ee.len() as int);
            assert(0 <= at < ee.len() && ee[at as int] == '@' && (forall|k: int| 0 <= k < at ==> ee[k] != '@') && {
                &&& local.len() > 0
                &&& dom.len() > 0
                &&& dom.contains('.')
                &&& dom[0] != '.'
                &&& dom.last() != '.'
            });
            assert(email_ok(ee));
        }
    }
    if !looks_valid {
        return Err(AppError::BadRequest(string_from("el email no es válido")));
    }
    Ok(email)
}

/// An email is accepted whenever its shape is right, whatever its other
/// characters: 3 to 254 bytes, a first `@` at `at` with something before it,
/// a dot at `dot` after it, a domain that neither starts nor ends with a dot,
/// and no space. Letters, digits, `_`, `-`, `+` and the rest play no part.
pub proof fn law_well_formed_emails_are_accepted(e: Seq<char>, at: int, dot: int)
    requires
        3 <= byte_len(e) <= 254,
        0 < at < dot < e.len(),
        e[at] == '@',
        forall|k: int| 0 <= k < at ==> e[k] != '@',
        e[dot] == '.',
        e[at + 1] != '.',
        e[e.len() - 1] != '.',
        forall|k: int| 0 <= k < e.len() ==> e[k] != ' ',
    ensures
        email_ok(e),
{
    let domain = e.subrange(at + 1, e.len() as int);
    assert(domain[dot - at - 1] == '.');
    assert(domain.contains('.'));
    assert(domain[0] == e[at + 1]);
    assert(domain.last() == e[e.len() - 1]);
    assert(!e.contains(' '));
}

/// What is refused: a length out of 3..254 bytes, no `@`, a space anywhere,
/// nothing before the first `@`, or an email ending in a dot.
pub proof fn law_malformed_emails_are_refused(e: Seq<char>)
    ensures
        byte_len(e) < 3 || byte_len(e) > 254 ==> !email_ok(e),
        !e.contains('@') ==> !email_ok(e),
        e.contains(' ') ==> !email_ok(e),
        e.len() > 0 && e[0] == '@' ==> !email_ok(e),
        e.len() > 0 && e.last() == '.' ==> !email_ok(e),
{
    if email_ok(e) {
        let at = choose|at: int|
            0 <= at < e.len() && e[at] == '@' && (forall|k: int| 0 <= k < at ==> e[k] != '@') && {
                let local = e.subrange(0, at);
                let domain = e.subrange(at + 1, e.len() as int);
                &&& local.len() > 0
                &&& domain.len() > 0
                &&& domain.contains('.')
                &&& domain[0] != '.'
                &&& domain.last() != '.'
            };
        assert(e.contains('@'));
        let domain = e.subrange(at + 1, e.len() as int);
        assert(domain.last() == e.last());
    }
}

/// Past the first `@` (at `at`), the domain must be there, hold a dot, and
/// not start with one.
pub proof fn law_bad_domains_are_refused(e: Seq<char>, at: int)
    requires
        0 <= at < e.len(),
        e[at] == '@',
        forall|k: int| 0 <= k < at ==> e[k] != '@',
    ensures
        at + 1 == e.len() ==> !email_ok(e),
        at + 1 < e.len() && e[at + 1] == '.' ==> !email_ok(e),
        (forall|j: int| at < j < e.len() ==> e[j] != '.') ==> !email_ok(e),
{
    if email_ok(e) {
        let a2 = choose|a2: int|
            0 <= a2 < e.len() && e[a2] == '@' && (forall|k: int| 0 <= k < a2 ==> e[k] != '@') && {
                let local = e.subrange(0, a2);
                let domain = e.subrange(a2 + 1, e.len() as int);
                &&& local.len() > 0
                &&& domain.len() > 0
                &&& domain.contains('.')
                &&& domain[0] != '.'
                &&& domain.last() != '.'
            };
        if a2 < at {
            assert(e[a2] == '@');
        } else if at < a2 {
            assert(e[at] == '@');
        }
        assert(a2 == at);
        let domain = e.subrange(at + 1, e.len() as int);
        if forall|j: int| at < j < e.len() ==> e[j] != '.' {
            let i = choose|i: int| 0 <= i < domain.len() && domain[i] == '.';
            assert(e[at + 1 + i] == '.');
        }
    }
}

/// Normalizes and validates an email: trims it, lower-cases it, and accepts it
/// when `email_ok` holds of the result.
pub fn email(raw: &str) -> (r: Result<String, AppError>)
    ensures
        email_ok(lowercase_of(trimmed(raw@))) ==> (r matches Ok(e) && e@ == lowercase_of(
            trimmed(raw@),
        )),
        !email_ok(lowercase_of(trimmed(raw@))) ==> is_bad_request(r, email_refusal()),
{
    let t = trim_text(raw);
    let t = string_of(&t);
    let lower = to_lowercase(t.as_str());
    accept_email(lower)
}

// ---------------------------------------------------------------------------
// Password
// ---------------------------------------------------------------------------

pub fn password(raw: &str) -> (r: Result<(), AppError>)
    ensures
        raw@.len() < 8 ==> is_bad_request(r, "la contraseña debe tener al menos 8 caracteres"@),
        raw@.len() >= 8 && byte_len(raw@) > 256 ==> is_bad_request(
            r,
            "la contraseña es demasiado larga"@,
        ),
        raw@.len() >= 8 && byte_len(raw@) <= 256 ==> r is Ok,
{
    let count = chars_of(raw).len();
    if count < 8 {
        return Err(
            AppError::BadRequest(string_from("la contraseña debe tener al menos 8 caracteres")),
        );
    }
    if raw.len() > 256 {
        return Err(AppError::BadRequest(string_from("la contraseña es demasiado larga")));
    }
    Ok(())
}

// ---------------------------------------------------------------------------
// Free text
// ---------------------------------------------------------------------------

pub open spec fn empty_field_text(field: Seq<char>) -> Seq<char> {
    field + " no puede estar vacío"@
}

pub open spec fn long_field_text(field: Seq<char>, max_len: nat) -> Seq<char> {
    field + " no puede superar los "@ + decimal(max_len) + " caracteres"@
}

/// Trims `raw` and requires something to be left, of at most `max_len` characters.
pub fn non_empty(raw: &str, field: &str, max_len: usize) -> (r: Result<String, AppError>)
    ensures
        trimmed(raw@).len() == 0 ==> is_bad_request(r, empty_field_text(field@)),
        trimmed(raw@).len() > max_len ==> is_bad_request(
            r,
            long_field_text(field@, max_len as nat),
        ),
        0 < trimmed(raw@).len() <= max_len ==> (r matches Ok(v) && v@ == trimmed(raw@)),
{
    let value = trim_text(raw);
    if value.len() == 0 {
        let mut m = string_from(field);
        push_str(&mut m, " no puede estar vacío");
        return Err(AppError::BadRequest(m));
    }
    if value.len() > max_len {
        let mut m = string_from(field);
        push_str(&mut m, " no puede superar los ");
        push_decimal(&mut m, max_len as u64);
        push_str(&mut m, " caracteres");
        return Err(AppError::BadRequest(m));
    }
    Ok(string_of(&value))
}

// ---------------------------------------------------------------------------
// Currency
// ---------------------------------------------------------------------------

/// A normalized currency code is acceptable: three bytes, all ASCII letters.
pub open spec fn currency_ok(code: Seq<char>) -> bool {
    byte_len(code) == 3 && forall|i: int| 0 <= i < code.len() ==> is_ascii_letter(code[i])
}

pub open spec fn currency_refusal() -> Seq<char> {
    "la moneda debe ser un código de 3 letras (ej. ARS, USD, EUR)"@
}

/// Accepts an already normalized currency code as it is, or refuses it.
pub fn accept_currency(code: String) -> (r: Result<String, AppError>)
    ensures
        currency_ok(code@) ==> r == Ok::<String, AppError>(code),
        !currency_ok(code@) ==> is_bad_request(r, currency_refusal()),
{
    let n = code.as_str().len();
    let cs = chars_of(code.as_str());
    let mut all_letters = true;
    let mut i: usize = 0;
    while i < cs.len()
        invariant
            i <= cs.len(),
            all_letters == forall|k: int| 0 <= k < i ==> is_ascii_letter(cs@[k]),
        decreases cs.len() - i,
    {
        if !ascii_letter(cs[i]) {
            all_letters = false;
        }
        i = i + 1;
    }
    if n != 3 || !all_letters {
        return Err(
            AppError::BadRequest(
                string_from("la moneda debe ser un código de 3 letras (ej. ARS, USD, EUR)"),
            ),
        );
    }
    Ok(code)
}

/// Validates an ISO-4217 style three-letter code: trims and upper-cases it,
/// and accepts it when `currency_ok` holds of the result.
pub fn currency(raw: &str) -> (r: Result<String, AppError>)
    ensures
        currency_ok(uppercase_of(trimmed(raw@))) ==> (r matches Ok(c) && c@ == uppercase_of(
            trimmed(raw@),
        )),
        !currency_ok(uppercase_of(trimmed(raw@))) ==> is_bad_request(r, currency_refusal()),
{
    let t = trim_text(raw);
    let t = string_of(&t);
    let upper = to_uppercase(t.as_str());
    accept_currency(upper)
}

// ---------------------------------------------------------------------------
// Amounts and kinds
// ---------------------------------------------------------------------------

/// Largest amount accepted, in cents: anything above is a data entry mistake.
pub const MAX_AMOUNT_CENTS: i64 = 1_000_000_000_000_000;

pub fn amount_cents(value: i64) -> (r: Result<i64, AppError>)
    ensures
        value <= 0 ==> is_bad_request(r, "el importe debe ser mayor a cero"@),
        value > MAX_AMOUNT_CENTS ==> is_bad_request(r, "el importe es demasiado grande"@),
        0 < value <= MAX_AMOUNT_CENTS ==> r == Ok::<i64, AppError>(value),
{
    if value <= 0 {
        return Err(AppError::BadRequest(string_from("el importe debe ser mayor a cero")));
    }
    if value > MAX_AMOUNT_CENTS {
        return Err(AppError::BadRequest(string_from("el importe es demasiado grande")));
    }
    Ok(value)
}

/// The kinds a group can be.
pub open spec fn is_group_kind(kind: Seq<char>) -> bool {
    kind == "trip"@ || kind == "home"@ || kind == "couple"@ || kind == "event"@ || kind == "other"@
}

pub open spec fn group_kind_refusal() -> Seq<char> {
    "el tipo de grupo no es válido (trip, home, couple, event, other)"@
}

/// Accepts an already normalized group kind as it is, or refuses it.
pub fn accept_group_kind(kind: String) -> (r: Result<String, AppError>)
    ensures
        is_group_kind(kind@) ==> r == Ok::<String, AppError>(kind),
        !is_group_kind(kind@) ==> is_bad_request(r, group_kind_refusal()),
{
    let s = kind.as_str();
    let known = crate::text::same_text(s, "trip") || crate::text::same_text(s, "home")
        || crate::text::same_text(s, "couple") || crate::text::same_text(s, "event")
        || crate::text::same_text(s, "other");
    if !known {
        return Err(
            AppError::BadRequest(
                string_from("el tipo de grupo no es válido (trip, home, couple, event, other)"),
            ),
        );
    }
    Ok(kind)
}

/// Validates a group kind: trims and lower-cases it, and accepts it when it is
/// one of the known kinds.
pub fn group_kind(raw: &str) -> (r: Result<String, AppError>)
    ensures
        is_group_kind(lowercase_of(trimmed(raw@))) ==> (r matches Ok(k) && k@ == lowercase_of(
            trimmed(raw@),
        )),
        !is_group_kind(lowercase_of(trimmed(raw@))) ==> is_bad_request(r, group_kind_refusal()),
{
    let t = trim_text(raw);
    let t = string_of(&t);
    let lower = to_lowercase(t.as_str());
    accept_group_kind(lower)
}

} // verus!
