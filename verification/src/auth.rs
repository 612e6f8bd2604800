//! Password hashing, session claims and reading the session token of a request.
use vstd::prelude::*;
use vstd::utf8::{
    encode_utf8, is_ascii_chars, is_ascii_chars_encode_utf8, is_ascii_chars_nat_bound,
    is_continuation_byte,
};
use crate::error::{AppError, is_conflict, is_unauthorized};
use crate::text::{
    chars_of, lowercase_of, push_char, push_str, string_from, string_of, to_lowercase, trim_chars,
    trimmed, Strip,
};

verus! {

// ---------------------------------------------------------------------------
// Passwords
// ---------------------------------------------------------------------------

#[verifier::external_type_specification]
#[verifier::external_body]
pub struct ExPasswordHashError(argon2::password_hash::Error);

/// Whether argon2 accepts `plain` for the PHC hash string `hash`: the hash
/// parses (`PasswordHash::new`) and the password verifies against it
/// (`Argon2::verify_password` with default parameters).
pub uninterp spec fn argon2_accepts(plain: Seq<char>, hash: Seq<char>) -> bool;

/// Hashes `plain` with argon2 (default parameters) and a fresh random salt
/// from the operating system, giving the PHC string. The salt makes the
/// result differ from call to call, so nothing but the round trip is stated:
/// a hash that was produced verifies against its password.
#[verifier::external_body]
fn argon2_hash(plain: &str) -> (r: Result<String, argon2::password_hash::Error>)
    ensures
        r matches Ok(h) ==> argon2_accepts(plain@, h@),
{
    let salt = argon2::password_hash::SaltString::generate(
        &mut argon2::password_hash::rand_core::OsRng,
    );
    argon2::password_hash::PasswordHasher::hash_password(
        &argon2::Argon2::default(),
        plain.as_bytes(),
        &salt,
    ).map(|h| h.to_string())
}

/// Parses `hash` as a PHC string and verifies `plain` against it with
/// argon2 (`PasswordHash::new`, then `Argon2::verify_password`); a hash that
/// does not parse verifies nothing.
#[verifier::external_body]
fn argon2_check(plain: &str, hash: &str) -> (ok: bool)
    ensures
        ok == argon2_accepts(plain@, hash@),
{
    match argon2::password_hash::PasswordHash::new(hash) {
        Ok(parsed) => argon2::password_hash::PasswordVerifier::verify_password(
            &argon2::Argon2::default(),
            plain.as_bytes(),
            &parsed,
        ).is_ok(),
        Err(_) => false,
    }
}

/// The description of a hashing failure (its `Display` text); nothing is
/// stated of it.
#[verifier::external_body]
fn hash_error_text(e: &argon2::password_hash::Error) -> String {
    e.to_string()
}

/// Hashes a password with argon2 and a random salt.
pub fn hash_password(plain: &str) -> (r: Result<String, AppError>)
    ensures
        r matches Ok(h) ==> argon2_accepts(plain@, h@),
        r matches Err(e) ==> (e matches AppError::Internal(m) && has_prefix(
            m@,
            "no se pudo hashear la contraseña: "@,
        )),
{
    match argon2_hash(plain) {
        Ok(hash) => Ok(hash),
        Err(e) => {
            let mut m = string_from("no se pudo hashear la contraseña: ");
            let ghost head = m@;
            let detail = hash_error_text(&e);
            push_str(&mut m, detail.as_str());
            assert(m@.take(head.len() as int) =~= head);
            Err(AppError::Internal(m))
        },
    }
}

/// Whether `plain` is the password `hash` was made from.
pub fn verify_password(plain: &str, hash: &str) -> (ok: bool)
    ensures
        ok == argon2_accepts(plain@, hash@),
{
    argon2_check(plain, hash)
}

// ---------------------------------------------------------------------------
// User ids as text
// ---------------------------------------------------------------------------

pub open spec fn hex_char(d: int) -> char {
    if d < 10 {
        ((48 + d) as u32) as char
    } else {
        ((87 + d) as u32) as char
    }
}

/// Position among the 32 hex digits of the character at position `p` of the
/// hyphenated form.
pub open spec fn digit_index(p: int) -> int {
    if p < 8 {
        p
    } else if p < 13 {
        p - 1
    } else if p < 18 {
        p - 2
    } else if p < 23 {
        p - 3
    } else {
        p - 4
    }
}

/// Hyphenated lower-case form of a 128-bit id: 32 hex digits, most
/// significant first, grouped 8-4-4-4-12.
pub open spec fn hyphenated(id: u128) -> Seq<char> {
    Seq::new(
        36,
        |p: int|
            if p == 8 || p == 13 || p == 18 || p == 23 {
                '-'
            } else {
                hex_char((((id >> ((4 * (31 - digit_index(p))) as u128)) & 0xf) as int))
            },
    )
}

/// The text of a user id (`Uuid`'s `Display`: hyphenated, lower case).
#[verifier::external_body]
pub(crate) fn uuid_text(id: u128) -> (s: String)
    ensures
        s@ == hyphenated(id),
{
    uuid::Uuid::from_u128(id).to_string()
}

/// What `Uuid::parse_str` reads from a text, as a 128-bit value (big-endian),
/// or `None` when it refuses the text.
pub uninterp spec fn uuid_parsed(s: Seq<char>) -> Option<u128>;

/// Parses a user id with `Uuid::parse_str`. Beyond naming the result, only
/// this is stated: the hyphenated lower-case text of an id, which the parser
/// accepts, gives that id back.
#[verifier::external_body]
fn uuid_parse(s: &str) -> (r: Option<u128>)
    ensures
        r == uuid_parsed(s@),
        forall|id: u128| s@ == #[trigger] hyphenated(id) ==> r == Some(id),
{
    uuid::Uuid::parse_str(s).ok().map(|u| u.as_u128())
}

// ---------------------------------------------------------------------------
// Session tokens
// ---------------------------------------------------------------------------

/// Content of the session token.
pub struct Claims {
    /// The user id.
    pub sub: String,
    pub exp: i64,
    pub iat: i64,
}

/// The claims of a session for `user_id` opened at `now` (seconds since the
/// epoch) that lasts `ttl_hours`.
pub fn session_claims(user_id: u128, now: i64, ttl_hours: i64) -> (c: Claims)
    requires
        i64::MIN <= ttl_hours * 3600 <= i64::MAX,
        i64::MIN <= now + ttl_hours * 3600 <= i64::MAX,
    ensures
        c.sub@ == hyphenated(user_id),
        c.iat == now,
        c.exp == now + ttl_hours * 3600,
{
    Claims { sub: uuid_text(user_id), iat: now, exp: now + ttl_hours * 3600 }
}

/// Reads the user id out of a token's subject.
fn subject_user(sub: &str) -> (r: Result<u128, AppError>)
    ensures
        forall|id: u128| sub@ == #[trigger] hyphenated(id) ==> r == Ok::<u128, AppError>(id),
        uuid_parsed(sub@) matches Some(id) ==> r == Ok::<u128, AppError>(id),
        uuid_parsed(sub@) is None ==> is_unauthorized(r, "token mal formado"@),
{
    match uuid_parse(sub) {
        Some(id) => Ok(id),
        None => Err(AppError::Unauthorized(string_from("token mal formado"))),
    }
}

/// `s` starts with `p`.
pub open spec fn has_prefix(s: Seq<char>, p: Seq<char>) -> bool {
    p.len() <= s.len() && s.take(p.len() as int) == p
}

fn starts_with(s: &[char], p: &str) -> (r: bool)
    ensures
        r == has_prefix(s@, p@),
{
    let pc = chars_of(p);
    if pc.len() > s.len() {
        return false;
    }
    let mut i: usize = 0;
    while i < pc.len()
        invariant
            pc.len() <= s.len(),
            pc@ == p@,
            i <= pc.len(),
            forall|k: int| 0 <= k < i ==> s@[k] == pc@[k],
        decreases pc.len() - i,
    {
        if s[i] != pc[i] {
            return false;
        }
        i = i + 1;
    }
    assert(s@.take(pc.len() as int) =~= pc@);
    true
}

/// The token of an `Authorization` header value: what follows `Bearer ` (or
/// `bearer `), trimmed, when something is left.
pub open spec fn bearer_spec(h: Seq<char>) -> Option<Seq<char>> {
    let rest = if has_prefix(h, "Bearer "@) {
        Some(h.skip(("Bearer "@).len() as int))
    } else if has_prefix(h, "bearer "@) {
        Some(h.skip(("bearer "@).len() as int))
    } else {
        None
    };
    match rest {
        Some(r) => if trimmed(r).len() > 0 {
            Some(trimmed(r))
        } else {
            None
        },
        None => None,
    }
}

fn chars_after(s: &[char], start: usize) -> (r: Vec<char>)
    requires
        start <= s.len(),
    ensures
        r@ == s@.skip(start as int),
{
    let mut r: Vec<char> = Vec::new();
    let mut i: usize = start;
    while i < s.len()
        invariant
            start <= i <= s.len(),
            r@ == s@.subrange(start as int, i as int),
        decreases s.len() - i,
    {
        r.push(s[i]);
        i = i + 1;
        assert(r@ =~= s@.subrange(start as int, i as int));
    }
    r
}

/// The session token carried by an `Authorization: Bearer <token>` header value.
pub fn bearer_token(header: &str) -> (r: Option<String>)
    ensures
        r matches Some(t) ==> bearer_spec(header@) == Some(t@),
        r is None ==> bearer_spec(header@) is None,
{
    let h = chars_of(header);
    let prefix_len = chars_of("Bearer ").len();
    let rest = if starts_with(&h, "Bearer ") {
        chars_after(&h, prefix_len)
    } else if starts_with(&h, "bearer ") {
        let n2 = chars_of("bearer ").len();
        chars_after(&h, n2)
    } else {
        return None;
    };
    let t = trim_chars(&rest, Strip::Whitespace);
    if t.len() == 0 {
        return None;
    }
    Some(string_of(&t))
}

// ---------------------------------------------------------------------------
// Percent decoding of the `token` query parameter
// ---------------------------------------------------------------------------

pub open spec fn hex_digit_value(b: u8) -> Option<int> {
    if 48 <= b <= 57 {
        Some(b - 48)
    } else if 97 <= b <= 102 {
        Some(b - 87)
    } else if 65 <= b <= 70 {
        Some(b - 55)
    } else {
        None
    }
}

/// What `u8::from_str_radix(text, 16)` gives for the two-byte text `b1 b2`:
/// an optional `+` sign followed by hex digits.
pub open spec fn hex_pair_value(b1: u8, b2: u8) -> Option<u8> {
    if b1 == 43 {
        match hex_digit_value(b2) {
            Some(l) => Some(l as u8),
            None => None,
        }
    } else {
        match (hex_digit_value(b1), hex_digit_value(b2)) {
            (Some(h), Some(l)) => Some((16 * h + l) as u8),
            _ => None,
        }
    }
}

fn hex_digit(b: u8) -> (r: Option<u8>)
    ensures
        r matches Some(v) ==> hex_digit_value(b) == Some(v as int),
        r is None ==> hex_digit_value(b) is None,
{
    if 48 <= b && b <= 57 {
        Some(b - 48)
    } else if 97 <= b && b <= 102 {
        Some(b - 87)
    } else if 65 <= b && b <= 70 {
        Some(b - 55)
    } else {
        None
    }
}

fn hex_pair(b1: u8, b2: u8) -> (r: Option<u8>)
    ensures
        r == hex_pair_value(b1, b2),
{
    if b1 == 43 {
        hex_digit(b2)
    } else {
        match (hex_digit(b1), hex_digit(b2)) {
            (Some(h), Some(l)) => Some(16 * h + l),
            _ => None,
        }
    }
}

/// The character a single byte stands for when copied as it is.
pub open spec fn byte_char(b: u8) -> char {
    (b as u32) as char
}

/// Minimal percent decoding: `%XX` becomes the byte `XX`, `+` a space, and
/// every other byte is copied as the character with that code.
pub open spec fn url_decoded(b: Seq<u8>) -> Seq<char>
    decreases b.len(),
{
    if b.len() == 0 {
        Seq::empty()
    } else if b[0] == 37 && 2 < b.len() && hex_pair_value(b[1], b[2]) is Some {
        seq![byte_char(hex_pair_value(b[1], b[2])->0)] + url_decoded(b.subrange(3, b.len() as int))
    } else if b[0] == 43 {
        seq![' '] + url_decoded(b.drop_first())
    } else {
        seq![byte_char(b[0])] + url_decoded(b.drop_first())
    }
}

/// The bytes a session token is written with: base64url characters and dots.
pub open spec fn token_byte(b: u8) -> bool {
    (65 <= b <= 90) || (97 <= b <= 122) || (48 <= b <= 57) || b == 45 || b == 95 || b == 46
}

/// Decoding leaves a text written only with a token's characters as it is,
/// which is why the minimal decoding is enough for session tokens.
pub proof fn law_token_text_decodes_to_itself(b: Seq<u8>)
    requires
        forall|i: int| 0 <= i < b.len() ==> token_byte(#[trigger] b[i]),
    ensures
        url_decoded(b) == b.map_values(|x: u8| byte_char(x)),
    decreases b.len(),
{
    if b.len() > 0 {
        let rest = b.drop_first();
        assert forall|i: int| 0 <= i < rest.len() implies token_byte(#[trigger] rest[i]) by {
            assert(rest[i] == b[i + 1]);
        }
        law_token_text_decodes_to_itself(rest);
        assert(token_byte(b[0]));
        assert(b.map_values(|x: u8| byte_char(x)) =~= seq![byte_char(b[0])] + rest.map_values(
            |x: u8| byte_char(x),
        ));
    } else {
        assert(b.map_values(|x: u8| byte_char(x)) =~= Seq::<char>::empty());
    }
}

/// The upper-case hex digit of `d` (0 to 15), as a byte.
pub open spec fn hex_digit_byte(d: int) -> u8 {
    if d < 10 {
        (48 + d) as u8
    } else {
        (55 + d) as u8
    }
}

/// Every byte of `b` written as a `%XX` escape.
pub open spec fn escaped(b: Seq<u8>) -> Seq<u8>
    decreases b.len(),
{
    if b.len() == 0 {
        Seq::empty()
    } else {
        seq![37u8, hex_digit_byte(b[0] as int / 16), hex_digit_byte(b[0] as int % 16)] + escaped(b.drop_first())
    }
}

/// A text written entirely as `%XX` escapes decodes back to the escaped
/// bytes, each as the character with that code.
pub proof fn law_escaped_text_decodes_back(b: Seq<u8>)
    ensures
        url_decoded(escaped(b)) == b.map_values(|x: u8| byte_char(x)),
    decreases b.len(),
{
    if b.len() > 0 {
        let x = b[0];
        let rest = b.drop_first();
        let e = escaped(b);
        let h = hex_digit_byte(x as int / 16);
        let l = hex_digit_byte(x as int % 16);
        assert(e =~= seq![37u8, h, l] + escaped(rest));
        assert(e[0] == 37 && e[1] == h && e[2] == l);
        assert(hex_digit_value(h) == Some(x as int / 16));
        assert(hex_digit_value(l) == Some(x as int % 16));
        assert(16 * (x as int / 16) + x as int % 16 == x);
        assert(hex_pair_value(h, l) == Some(x));
        assert(e.subrange(3, e.len() as int) =~= escaped(rest));
        law_escaped_text_decodes_back(rest);
        assert(b.map_values(|x: u8| byte_char(x)) =~= seq![byte_char(x)] + rest.map_values(
            |x: u8| byte_char(x),
        ));
    } else {
        assert(b.map_values(|x: u8| byte_char(x)) =~= Seq::<char>::empty());
    }
}

/// The bytes of an ASCII text.
pub open spec fn ascii_bytes(s: Seq<char>) -> Seq<u8> {
    s.map_values(|c: char| c as u8)
}

/// An ASCII text with every character written as a `%XX` escape.
pub open spec fn escaped_text(s: Seq<char>) -> Seq<char> {
    escaped(ascii_bytes(s)).map_values(|b: u8| byte_char(b))
}

proof fn lemma_escaped_is_ascii(b: Seq<u8>)
    ensures
        forall|i: int| 0 <= i < escaped(b).len() ==> #[trigger] escaped(b)[i] < 128,
    decreases b.len(),
{
    if b.len() > 0 {
        lemma_escaped_is_ascii(b.drop_first());
        let e = escaped(b);
        let x = b[0] as int;
        assert(e =~= seq![37u8, hex_digit_byte(x / 16), hex_digit_byte(x % 16)] + escaped(b.drop_first()));
        assert forall|i: int| 0 <= i < e.len() implies #[trigger] e[i] < 128 by {
            if i >= 3 {
                assert(e[i] == escaped(b.drop_first())[i - 3]);
            }
        }
    }
}

/// An ASCII text written entirely as `%XX` escapes decodes back to itself:
/// `urldecode` accepts the escaped text and gives the original text.
pub proof fn law_escaped_ascii_text_decodes_back(s: Seq<char>)
    requires
        is_ascii_chars(s),
    ensures
        decodable(encode_utf8(escaped_text(s))),
        url_decoded(encode_utf8(escaped_text(s))) == s,
{
    let b = ascii_bytes(s);
    let e = escaped(b);
    let t = escaped_text(s);
    lemma_escaped_is_ascii(b);
    assert forall|i: int| 0 <= i < t.len() implies '\0' <= #[trigger] t[i] <= '\u{7f}' by {
        assert(t[i] == byte_char(e[i]));
        assert(e[i] < 128);
    }
    assert(is_ascii_chars(t));
    is_ascii_chars_encode_utf8(t);
    assert forall|i: int| 0 <= i < t.len() implies encode_utf8(t)[i] == e[i] by {
        assert(t[i] == byte_char(e[i]));
        assert(e[i] < 128);
        assert(t[i] as u8 == encode_utf8(t)[i]);
    }
    assert(encode_utf8(t) =~= e);
    law_escaped_text_decodes_back(b);
    is_ascii_chars_nat_bound(s);
    assert(b.map_values(|x: u8| byte_char(x)) =~= s) by {
        assert forall|i: int| 0 <= i < s.len() implies b.map_values(|x: u8| byte_char(x))[i] == s[i] by {
            assert((s[i] as nat) < 128);
            assert(b[i] == s[i] as u8);
        }
    }
}

/// Decoding `b` cuts no character in two: after every `%` with two bytes
/// following, the third byte starts a character.
pub open spec fn decodable(b: Seq<u8>) -> bool {
    forall|i: int| 0 <= i && i + 3 < b.len() && b[i] == 37 ==> !is_continuation_byte(#[trigger] b[i + 3])
}

/// Percent-decodes the bytes `b[lo..hi]`.
fn decode_range(b: &[u8], lo: usize, hi: usize) -> (out: String)
    requires
        lo <= hi <= b@.len(),
    ensures
        out@ == url_decoded(b@.subrange(lo as int, hi as int)),
{
    let ghost whole = b@.subrange(lo as int, hi as int);
    let mut out = String::new();
    let mut i: usize = lo;
    while i < hi
        invariant
            lo <= i <= hi <= b@.len(),
            whole == b@.subrange(lo as int, hi as int),
            out@ + url_decoded(b@.subrange(i as int, hi as int)) == url_decoded(whole),
        decreases hi - i,
    {
        let ghost before = out@;
        let ghost rest = b@.subrange(i as int, hi as int);
        let c = b[i];
        if c == 37 && hi - i > 2 {
            match hex_pair(b[i + 1], b[i + 2]) {
                Some(v) => {
                    push_char(&mut out, v as char);
                    assert(rest.subrange(3, rest.len() as int) =~= b@.subrange(i + 3, hi as int));
                    i = i + 3;
                },
                None => {
                    push_char(&mut out, '%');
                    assert(rest.drop_first() =~= b@.subrange(i + 1, hi as int));
                    i = i + 1;
                },
            }
        } else if c == 43 {
            push_char(&mut out, ' ');
            assert(rest.drop_first() =~= b@.subrange(i + 1, hi as int));
            i = i + 1;
        } else {
            push_char(&mut out, c as char);
            assert(rest.drop_first() =~= b@.subrange(i + 1, hi as int));
            i = i + 1;
        }
        assert(out@ + url_decoded(b@.subrange(i as int, hi as int)) =~= before + url_decoded(rest));
    }
    assert(out@ + url_decoded(b@.subrange(hi as int, hi as int)) =~= out@);
    out
}

/// Percent-decodes the `token` parameter. A session token only uses base64url
/// characters and dots, so this minimal decoding is enough.
pub fn urldecode(value: &str) -> (out: String)
    requires
        decodable(encode_utf8(value@)),
    ensures
        out@ == url_decoded(encode_utf8(value@)),
{
    let bytes = value.as_bytes();
    assert(bytes@.subrange(0, bytes@.len() as int) =~= bytes@);
    decode_range(bytes, 0, bytes.len())
}

// ---------------------------------------------------------------------------
// The `token` query parameter
// ---------------------------------------------------------------------------

/// Position of the first `x` in `s`, or `s.len()` when there is none.
pub open spec fn first_pos(s: Seq<u8>, x: u8) -> int
    decreases s.len(),
{
    if s.len() == 0 {
        0
    } else if s[0] == x {
        0
    } else {
        1 + first_pos(s.drop_first(), x)
    }
}

/// `k` is where the first `x` of `s` stands (`s.len()` when there is none).
pub open spec fn is_first_pos(s: Seq<u8>, x: u8, k: int) -> bool {
    &&& 0 <= k <= s.len()
    &&& k < s.len() ==> s[k] == x
    &&& forall|j: int| 0 <= j < k ==> s[j] != x
}

pub proof fn lemma_first_pos(s: Seq<u8>, x: u8)
    ensures
        is_first_pos(s, x, first_pos(s, x)),
        forall|k: int| is_first_pos(s, x, k) ==> k == first_pos(s, x),
    decreases s.len(),
{
    if s.len() > 0 && s[0] != x {
        let t = s.drop_first();
        lemma_first_pos(t, x);
        assert forall|j: int| 0 <= j < first_pos(s, x) implies s[j] != x by {
            if j > 0 {
                assert(s[j] == t[j - 1]);
            }
        }
        assert forall|k: int| is_first_pos(s, x, k) implies k == first_pos(s, x) by {
            assert(k != 0);
            assert forall|j: int| 0 <= j < k - 1 implies t[j] != x by {
                assert(t[j] == s[j + 1]);
            }
            assert(k - 1 < t.len() ==> t[k - 1] == s[k]);
            assert(is_first_pos(t, x, k - 1));
        }
    }
}

/// The bytes of the key `token`.
pub open spec fn token_key() -> Seq<u8> {
    seq![116u8, 111u8, 107u8, 101u8, 110u8]
}

/// The raw value of the first `key=value` pair of a query string, split at
/// `&`, whose key is `token`. A pair without `=` is passed over.
pub open spec fn query_value(q: Seq<u8>) -> Option<Seq<u8>>
    decreases q.len(),
{
    let end = first_pos(q, 38);
    let pair = q.take(end);
    let eq = first_pos(pair, 61);
    if eq < pair.len() && pair.take(eq) == token_key() {
        Some(pair.skip(eq + 1))
    } else if end < q.len() {
        proof {
            lemma_first_pos(q, 38);
        }
        query_value(q.skip(end + 1))
    } else {
        None
    }
}

/// Decoding the `token` value of `q` (if there is one) cuts no character.
pub open spec fn query_decodable(q: Seq<u8>) -> bool {
    query_value(q) matches Some(v) ==> decodable(v)
}

/// What the `token` parameter of a query string holds, decoded.
pub open spec fn query_token_spec(q: Seq<u8>) -> Option<Seq<char>> {
    match query_value(q) {
        Some(v) => Some(url_decoded(v)),
        None => None,
    }
}

/// Position of the first `x` in `b[lo..hi]`, as an index of `b` (`hi` when
/// there is none).
fn find_byte(b: &[u8], lo: usize, hi: usize, x: u8) -> (k: usize)
    requires
        lo <= hi <= b@.len(),
    ensures
        lo <= k <= hi,
        k - lo == first_pos(b@.subrange(lo as int, hi as int), x),
{
    let ghost sub = b@.subrange(lo as int, hi as int);
    let mut k: usize = lo;
    while k < hi
        invariant
            lo <= k <= hi <= b@.len(),
            sub == b@.subrange(lo as int, hi as int),
            forall|j: int| lo <= j < k ==> b@[j] != x,
        ensures
            lo <= k <= hi,
            forall|j: int| lo <= j < k ==> b@[j] != x,
            k < hi ==> b@[k as int] == x,
        decreases hi - k,
    {
        if b[k] == x {
            break;
        }
        k = k + 1;
    }
    proof {
        lemma_first_pos(sub, x);
        assert forall|j: int| 0 <= j < k - lo implies sub[j] != x by {
            assert(sub[j] == b@[lo + j]);
        }
        assert(is_first_pos(sub, x, k - lo));
    }
    k
}

/// `b[lo..hi]` is the key `token`.
fn is_token_key(b: &[u8], lo: usize, hi: usize) -> (r: bool)
    requires
        lo <= hi <= b@.len(),
    ensures
        r == (b@.subrange(lo as int, hi as int) == token_key()),
{
    let ghost sub = b@.subrange(lo as int, hi as int);
    assert(token_key().len() == 5);
    if hi - lo != 5 {
        return false;
    }
    let r = b[lo] == 116 && b[lo + 1] == 111 && b[lo + 2] == 107 && b[lo + 3] == 101 && b[lo
        + 4] == 110;
    assert(r ==> sub =~= token_key());
    assert(sub == token_key() ==> (sub[0] == 116 && sub[1] == 111 && sub[2] == 107 && sub[3]
        == 101 && sub[4] == 110));
    r
}

/// The session token passed as `token=<value>` in a query string: the value
/// of the first pair with that key, percent-decoded.
pub fn query_token(query: &str) -> (r: Option<String>)
    requires
        query_decodable(encode_utf8(query@)),
    ensures
        r matches Some(t) ==> query_token_spec(encode_utf8(query@)) == Some(t@),
        r is None ==> query_token_spec(encode_utf8(query@)) is None,
{
    let b = query.as_bytes();
    let ghost q = b@;
    let n = b.len();
    let mut start: usize = 0;
    assert(q.skip(0) =~= q);
    assert(q == encode_utf8(query@));
    loop
        invariant
            q == b@,
            q == encode_utf8(query@),
            n == q.len(),
            start <= n,
            query_value(q.skip(start as int)) == query_value(q),
            query_decodable(q),
        decreases n - start,
    {
        let ghost rest = q.skip(start as int);
        let end = find_byte(b, start, n, 38);
        assert(q.subrange(start as int, n as int) =~= rest);
        let ghost pair = rest.take(end - start);
        assert(pair =~= q.subrange(start as int, end as int));
        let eq = find_byte(b, start, end, 61);
        if eq < end && is_token_key(b, start, eq) {
            assert(pair.take(eq - start) =~= q.subrange(start as int, eq as int));
            assert(pair.skip(eq - start + 1) =~= q.subrange(eq + 1, end as int));
            assert(query_value(rest) == Some(q.subrange(eq + 1, end as int)));
            let t = decode_range(b, eq + 1, end);
            return Some(t);
        }
        assert(eq < end ==> pair.take(eq - start) =~= q.subrange(start as int, eq as int));
        if end < n {
            assert(rest.skip(end - start + 1) =~= q.skip(end + 1));
            start = end + 1;
        } else {
            return None;
        }
    }
}

/// The session token of a request: the `Authorization: Bearer` header first,
/// else the `token` query parameter (an `<img>` tag cannot send headers).
/// Without either the request is refused.
pub fn request_token(authorization: Option<&str>, query: Option<&str>) -> (r: Result<String, AppError>)
    requires
        authorization matches Some(h) && bearer_spec(h@) is Some || (query matches Some(q) ==> query_decodable(encode_utf8(q@))),
    ensures
        authorization matches Some(h) && bearer_spec(h@) is Some ==> (r matches Ok(t) && bearer_spec(authorization->0@) == Some(t@)),
        !(authorization matches Some(h) && bearer_spec(h@) is Some) ==> match query {
            Some(q) => match query_token_spec(encode_utf8(q@)) {
                Some(t) => r matches Ok(v) && v@ == t,
                None => is_unauthorized(r, "falta el token de autenticación"@),
            },
            None => is_unauthorized(r, "falta el token de autenticación"@),
        },
{
    if let Some(h) = authorization {
        if let Some(t) = bearer_token(h) {
            return Ok(t);
        }
    }
    let from_query = match query {
        Some(q) => query_token(q),
        None => None,
    };
    match from_query {
        Some(t) => Ok(t),
        None => Err(AppError::Unauthorized(string_from("falta el token de autenticación"))),
    }
}

/// The user a session token names, given what decoding the token gave: the
/// subject when the signature and the expiry were accepted, `None` when they
/// were not. The subject written by `session_claims` gives its user back.
pub fn token_user(decoded_subject: Option<&str>) -> (r: Result<u128, AppError>)
    ensures
        decoded_subject is None ==> is_unauthorized(r, "sesión inválida o expirada"@),
        decoded_subject matches Some(sub) ==> match uuid_parsed(sub@) {
            Some(id) => r == Ok::<u128, AppError>(id),
            None => is_unauthorized(r, "token mal formado"@),
        },
        decoded_subject matches Some(sub) ==> forall|id: u128|
            sub@ == #[trigger] hyphenated(id) ==> r == Ok::<u128, AppError>(id),
{
    match decoded_subject {
        None => Err(AppError::Unauthorized(string_from("sesión inválida o expirada"))),
        Some(sub) => subject_user(sub),
    }
}

// ---------------------------------------------------------------------------
// Signing in
// ---------------------------------------------------------------------------

/// An email as typed at sign-in is looked up without surrounding whitespace
/// and in lower case.
pub fn normalize_login_email(raw: &str) -> (r: String)
    ensures
        r@ == lowercase_of(trimmed(raw@)),
{
    let t = string_of(&trim_chars(&chars_of(raw), Strip::Whitespace));
    to_lowercase(t.as_str())
}

/// Signing in succeeds only for a known account whose password matches. An
/// unknown email and a wrong password are answered alike, so that nobody can
/// learn which emails are registered.
pub fn login_check(password: &str, stored_hash: Option<&str>) -> (r: Result<(), AppError>)
    ensures
        (stored_hash matches Some(h) && argon2_accepts(password@, h@)) ==> r is Ok,
        !(stored_hash matches Some(h) && argon2_accepts(password@, h@)) ==> is_unauthorized(
            r,
            "email o contraseña incorrectos"@,
        ),
{
    if let Some(h) = stored_hash {
        if verify_password(password, h) {
            return Ok(());
        }
    }
    Err(AppError::Unauthorized(string_from("email o contraseña incorrectos")))
}

/// Changing the password asks for the current one.
pub fn check_current_password(current: &str, hash: &str) -> (r: Result<(), AppError>)
    ensures
        argon2_accepts(current@, hash@) ==> r is Ok,
        !argon2_accepts(current@, hash@) ==> is_unauthorized(
            r,
            "la contraseña actual no es correcta"@,
        ),
{
    if !verify_password(current, hash) {
        return Err(AppError::Unauthorized(string_from("la contraseña actual no es correcta")));
    }
    Ok(())
}

/// An email already registered cannot open a second account.
pub fn ensure_email_free(taken: bool) -> (r: Result<(), AppError>)
    ensures
        !taken ==> r is Ok,
        taken ==> is_conflict(r, "ya existe una cuenta con ese email"@),
{
    if taken {
        return Err(AppError::Conflict(string_from("ya existe una cuenta con ese email")));
    }
    Ok(())
}

} // verus!
