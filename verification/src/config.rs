//! Settings of the server and the rules for reading them.
use vstd::prelude::*;
use crate::validate::byte_len;
use crate::text::{chars_of, push_str, same_text, string_from, string_of, trim_chars, trimmed, Strip};

verus! {

#[verifier::external_type_specification]
#[verifier::external_body]
pub struct ExPathBuf(std::path::PathBuf);

/// Settings of the server.
pub struct Config {
    pub database_url: String,
    pub port: u16,
    pub host: String,
    pub jwt_secret: String,
    /// Lifetime of a session token, in hours.
    pub jwt_ttl_hours: i64,
    pub upload_dir: std::path::PathBuf,
    /// Largest attachment accepted, in bytes.
    pub max_upload_bytes: usize,
    /// Origins allowed by CORS; `*` allows any (development only).
    pub cors_origins: Vec<String>,
    /// Folder holding the built web front end; served when it exists.
    pub web_dist: Option<std::path::PathBuf>,
}

pub const DEFAULT_PORT: u16 = 3000;

/// Thirty days.
pub const DEFAULT_JWT_TTL_HOURS: i64 = 720;

/// Ten mebibytes.
pub const DEFAULT_MAX_UPLOAD_BYTES: usize = 10485760;

/// Shortest secret accepted for signing session tokens, in bytes.
pub const MIN_JWT_SECRET_BYTES: usize = 16;

/// The signing secret must be long enough.
pub fn check_jwt_secret(secret: &str) -> (r: Result<(), String>)
    ensures
        byte_len(secret@) >= MIN_JWT_SECRET_BYTES ==> r is Ok,
        byte_len(secret@) < MIN_JWT_SECRET_BYTES ==> (r matches Err(m) && m@
            == "JWT_SECRET debe tener al menos 16 caracteres"@),
{
    if secret.len() < MIN_JWT_SECRET_BYTES {
        return Err(string_from("JWT_SECRET debe tener al menos 16 caracteres"));
    }
    Ok(())
}


// ---------------------------------------------------------------------------
// Numbers in settings
// ---------------------------------------------------------------------------

/// Every character of `s` is an ASCII digit.
pub open spec fn all_digits(s: Seq<char>) -> bool {
    forall|i: int| 0 <= i < s.len() ==> '0' <= #[trigger] s[i] <= '9'
}

/// The value of a run of decimal digits.
pub open spec fn digits_value(s: Seq<char>) -> int
    decreases s.len(),
{
    if s.len() == 0 {
        0
    } else {
        digits_value(s.drop_last()) * 10 + (s.last() as int - 48)
    }
}

/// The integer a text writes, as `str::parse` reads it for an integer type:
/// an optional `+` (or `-`, for a signed type) and then one or more ASCII
/// digits, nothing else.
pub open spec fn number_text(s: Seq<char>, signed: bool) -> Option<int> {
    let neg = signed && s.len() > 0 && s[0] == '-';
    let body = if s.len() > 0 && (s[0] == '+' || neg) {
        s.drop_first()
    } else {
        s
    };
    if body.len() > 0 && all_digits(body) {
        Some(if neg { -digits_value(body) } else { digits_value(body) })
    } else {
        None
    }
}

/// What `str::parse` gives for an integer type whose values run from `lo`
/// to `hi`: the number the text writes, when it is in range.
pub open spec fn parsed_in(s: Seq<char>, signed: bool, lo: int, hi: int) -> Option<int> {
    match number_text(s, signed) {
        Some(v) => if lo <= v <= hi {
            Some(v)
        } else {
            None
        },
        None => None,
    }
}

proof fn lemma_digits_value_nonneg(s: Seq<char>)
    requires
        all_digits(s),
    ensures
        digits_value(s) >= 0,
    decreases s.len(),
{
    if s.len() > 0 {
        assert(all_digits(s.drop_last())) by {
            assert forall|i: int| 0 <= i < s.drop_last().len() implies '0' <= #[trigger] s.drop_last()[i] <= '9' by {
                assert(s.drop_last()[i] == s[i]);
            }
        }
        lemma_digits_value_nonneg(s.drop_last());
        assert('0' <= s[s.len() - 1] <= '9');
    }
}

/// Reads an integer between `lo` and `hi` as `str::parse` does.
fn parse_number(text: &str, signed: bool, lo: i128, hi: i128) -> (r: Option<i128>)
    requires
        -0x1_0000_0000_0000_0000 <= lo <= hi <= 0x1_0000_0000_0000_0000,
    ensures
        r matches Some(v) ==> parsed_in(text@, signed, lo as int, hi as int) == Some(v as int),
        r is None ==> parsed_in(text@, signed, lo as int, hi as int) is None,
{
    let cs = chars_of(text);
    let n = cs.len();
    let neg = signed && n > 0 && cs[0] == '-';
    let start: usize = if n > 0 && (cs[0] == '+' || neg) {
        1
    } else {
        0
    };
    let ghost body = cs@.skip(start as int);
    proof {
        assert(start == 1 ==> body =~= cs@.drop_first());
        assert(start == 0 ==> body =~= cs@);
    }
    if start >= n {
        return None;
    }
    let cap: i128 = 0x4_0000_0000_0000_0000_0000;
    let mut acc: i128 = 0;
    let mut over = false;
    let mut i: usize = start;
    assert(cs@.subrange(start as int, start as int) =~= Seq::<char>::empty());
    while i < n
        invariant
            start <= i <= n,
            n == cs@.len(),
            body == cs@.skip(start as int),
            cs@ == text@,
            body == (if text@.len() > 0 && (text@[0] == '+' || (signed && text@[0] == '-')) {
                text@.drop_first()
            } else {
                text@
            }),
            cap == 0x4_0000_0000_0000_0000_0000,
            all_digits(cs@.subrange(start as int, i as int)),
            !over ==> 0 <= acc <= cap && acc == digits_value(cs@.subrange(start as int, i as int)),
            over ==> digits_value(cs@.subrange(start as int, i as int)) > cap,
        decreases n - i,
    {
        let c = cs[i];
        if c < '0' || c > '9' {
            proof {
                assert(body[i - start] == c);
                assert(!all_digits(body));
            }
            return None;
        }
        let d = (c as u32 - 48) as i128;
        let ghost prev = cs@.subrange(start as int, i as int);
        let ghost next = cs@.subrange(start as int, i + 1);
        proof {
            assert(next.drop_last() =~= prev);
            assert(next.last() == c);
            assert(all_digits(next)) by {
                assert forall|q: int| 0 <= q < next.len() implies '0' <= #[trigger] next[q] <= '9' by {
                    if q < prev.len() {
                        assert(next[q] == prev[q]);
                    }
                }
            }
            lemma_digits_value_nonneg(prev);
        }
        if !over {
            acc = acc * 10 + d;
            if acc > cap {
                over = true;
            }
        }
        i = i + 1;
    }
    proof {
        assert(cs@.subrange(start as int, n as int) =~= body);
        lemma_digits_value_nonneg(body);
    }
    if over {
        return None;
    }
    let v = if neg {
        -acc
    } else {
        acc
    };
    if v < lo || v > hi {
        return None;
    }
    Some(v)
}

/// The pieces of `s` between commas, in order (what `str::split(',')` gives).
pub open spec fn comma_pieces(s: Seq<char>) -> Seq<Seq<char>>
    decreases s.len(),
{
    if s.len() == 0 {
        seq![Seq::empty()]
    } else {
        let rest = comma_pieces(s.drop_last());
        if s.last() == ',' {
            rest.push(Seq::empty())
        } else {
            rest.update(rest.len() - 1, rest.last().push(s.last()))
        }
    }
}

proof fn lemma_comma_pieces_nonempty(s: Seq<char>)
    ensures
        comma_pieces(s).len() >= 1,
    decreases s.len(),
{
    if s.len() > 0 {
        lemma_comma_pieces_nonempty(s.drop_last());
    }
}

/// The trimmed pieces of a list that are not blank.
pub open spec fn origins_of(pieces: Seq<Seq<char>>) -> Seq<Seq<char>>
    decreases pieces.len(),
{
    if pieces.len() == 0 {
        Seq::empty()
    } else {
        let rest = origins_of(pieces.drop_last());
        let t = trimmed(pieces.last());
        if t.len() == 0 {
            rest
        } else {
            rest.push(t)
        }
    }
}

pub open spec fn views_of(v: Seq<String>) -> Seq<Seq<char>> {
    v.map_values(|s: String| s@)
}

/// The CORS origins of a comma-separated list: each trimmed, blanks left out.
pub fn cors_origins_from(raw: &str) -> (r: Vec<String>)
    ensures
        views_of(r@) == origins_of(comma_pieces(raw@)),
{
    let cs = chars_of(raw);
    let mut done: Vec<String> = Vec::new();
    let mut piece: Vec<char> = Vec::new();
    let mut i: usize = 0;
    proof {
        assert(cs@.take(0) =~= Seq::<char>::empty());
    }
    while i < cs.len()
        invariant
            i <= cs.len(),
            cs@ == raw@,
            comma_pieces(cs@.take(i as int)).last() == piece@,
            views_of(done@) == origins_of(comma_pieces(cs@.take(i as int)).drop_last()),
        decreases cs.len() - i,
    {
        let ghost pre = comma_pieces(cs@.take(i as int));
        proof {
            lemma_comma_pieces_nonempty(cs@.take(i as int));
            assert(cs@.take(i + 1).drop_last() =~= cs@.take(i as int));
        }
        if cs[i] == ',' {
            let t = trim_chars(&piece, Strip::Whitespace);
            proof {
                assert(pre.push(Seq::empty()).drop_last() =~= pre);
                assert(pre =~= pre.drop_last().push(pre.last()));
            }
            if t.len() > 0 {
                done.push(string_of(&t));
                assert(views_of(done@) =~= views_of(done@.drop_last()).push(t@));
            }
            piece = Vec::new();
        } else {
            piece.push(cs[i]);
            proof {
                let post = pre.update(pre.len() - 1, pre.last().push(cs@[i as int]));
                assert(post.drop_last() =~= pre.drop_last());
            }
        }
        i = i + 1;
    }
    assert(cs@.take(cs.len() as int) =~= cs@);
    let t = trim_chars(&piece, Strip::Whitespace);
    let ghost all = comma_pieces(cs@);
    proof {
        lemma_comma_pieces_nonempty(cs@);
        assert(all =~= all.drop_last().push(all.last()));
    }
    if t.len() > 0 {
        done.push(string_of(&t));
        assert(views_of(done@) =~= views_of(done@.drop_last()).push(t@));
    }
    done
}

/// `*` among the origins opens CORS to any origin.
pub fn allows_any_origin(origins: &[String]) -> (r: bool)
    ensures
        r == exists|k: int| 0 <= k < origins@.len() && (#[trigger] origins@[k])@ == "*"@,
{
    let mut i: usize = 0;
    while i < origins.len()
        invariant
            i <= origins.len(),
            forall|k: int| 0 <= k < i ==> (#[trigger] origins@[k])@ != "*"@,
        decreases origins.len() - i,
    {
        if same_text(origins[i].as_str(), "*") {
            return true;
        }
        i = i + 1;
    }
    false
}

/// The message for a setting whose value does not parse.
pub fn invalid_setting_message(key: &str, raw: &str) -> (r: String)
    ensures
        r@ == "el valor de "@ + key@ + " ('"@ + raw@ + "') no es válido"@,
{
    let mut m = string_from("el valor de ");
    push_str(&mut m, key);
    push_str(&mut m, " ('");
    push_str(&mut m, raw);
    push_str(&mut m, "') no es válido");
    m
}

/// The message for a CORS origin that is not a valid header value.
pub fn invalid_origin_message(origin: &str) -> (r: String)
    ensures
        r@ == "origen CORS inválido: '"@ + origin@ + "'"@,
{
    let mut m = string_from("origen CORS inválido: '");
    push_str(&mut m, origin);
    push_str(&mut m, "'");
    m
}

/// The largest request body accepted: an attachment of the largest size and
/// one mebibyte more for the rest of the form.
pub fn body_limit(max_upload_bytes: usize) -> (r: usize)
    requires
        max_upload_bytes + 1048576 <= usize::MAX,
    ensures
        r == max_upload_bytes + 1048576,
{
    max_upload_bytes + 1048576
}

// ---------------------------------------------------------------------------
// Settings from the environment
// ---------------------------------------------------------------------------

/// The settings as the environment holds them, each `None` when unset.
pub struct RawSettings {
    pub database_url: Option<String>,
    pub jwt_secret: Option<String>,
    pub port: Option<String>,
    pub host: Option<String>,
    pub jwt_ttl_hours: Option<String>,
    pub max_upload_bytes: Option<String>,
    pub upload_dir: Option<String>,
    pub cors_origins: Option<String>,
    pub web_dist: Option<String>,
}

pub open spec fn invalid_setting_text(key: Seq<char>, raw: Seq<char>) -> Seq<char> {
    "el valor de "@ + key + " ('"@ + raw + "') no es válido"@
}

/// A number setting: its default when unset, else its trimmed text read as
/// an integer between `lo` and `hi`.
pub open spec fn number_setting(raw: Option<String>, signed: bool, lo: int, hi: int, default: int) -> Option<int> {
    match raw {
        Some(t) => parsed_in(trimmed(t@), signed, lo, hi),
        None => Some(default),
    }
}

pub open spec fn port_setting(raw: RawSettings) -> Option<int> {
    number_setting(raw.port, false, 0, u16::MAX as int, DEFAULT_PORT as int)
}

pub open spec fn ttl_setting(raw: RawSettings) -> Option<int> {
    number_setting(raw.jwt_ttl_hours, true, i64::MIN as int, i64::MAX as int, DEFAULT_JWT_TTL_HOURS as int)
}

pub open spec fn upload_setting(raw: RawSettings) -> Option<int> {
    number_setting(raw.max_upload_bytes, false, 0, usize::MAX as int, DEFAULT_MAX_UPLOAD_BYTES as int)
}

/// The signing secret: the one set, or else the ephemeral one given.
pub open spec fn secret_setting(raw: RawSettings, ephemeral: Seq<char>) -> Seq<char> {
    match raw.jwt_secret {
        Some(s) => s@,
        None => ephemeral,
    }
}

/// The origins allowed when none are set.
pub open spec fn default_cors_text() -> Seq<char> {
    "http://localhost:5173,http://127.0.0.1:5173"@
}

/// Why the settings are refused, checked in this order, if they are.
pub open spec fn settings_error(raw: RawSettings, ephemeral: Seq<char>) -> Option<Seq<char>> {
    if raw.database_url is None {
        Some("falta la variable de entorno DATABASE_URL"@)
    } else if byte_len(secret_setting(raw, ephemeral)) < MIN_JWT_SECRET_BYTES {
        Some("JWT_SECRET debe tener al menos 16 caracteres"@)
    } else if port_setting(raw) is None {
        Some(invalid_setting_text("PORT"@, raw.port->0@))
    } else if ttl_setting(raw) is None {
        Some(invalid_setting_text("JWT_TTL_HOURS"@, raw.jwt_ttl_hours->0@))
    } else if upload_setting(raw) is None {
        Some(invalid_setting_text("MAX_UPLOAD_BYTES"@, raw.max_upload_bytes->0@))
    } else {
        None
    }
}

/// A path made from its text (std's `PathBuf::from`); nothing is stated of
/// the path.
#[verifier::external_body]
fn path_from(s: String) -> std::path::PathBuf {
    std::path::PathBuf::from(s)
}

/// Whether `p` is the path that `path_from` (std's `PathBuf::from`) gave for
/// a string holding `text`.
pub closed spec fn path_made_from(p: std::path::PathBuf, text: Seq<char>) -> bool {
    exists|s: String| s@ == text && #[trigger] call_ensures(path_from, (s,), p)
}

/// The path made from `text` by `PathBuf::from`.
fn path_of(text: String) -> (p: std::path::PathBuf)
    ensures
        path_made_from(p, text@),
{
    let ghost held = text;
    let p = path_from(text);
    assert(call_ensures(path_from, (held,), p));
    p
}

/// Reads a number setting: `default` when unset, else the trimmed text as an
/// integer between `lo` and `hi`, or the message naming `key`.
fn number_from(raw: Option<String>, key: &str, signed: bool, lo: i128, hi: i128, default: i128) -> (r: Result<i128, String>)
    requires
        -0x1_0000_0000_0000_0000 <= lo <= hi <= 0x1_0000_0000_0000_0000,
    ensures
        match number_setting(raw, signed, lo as int, hi as int, default as int) {
            Some(v) => r == Ok::<i128, String>(v as i128),
            None => r matches Err(m) && m@ == invalid_setting_text(key@, raw->0@),
        },
{
    match raw {
        None => Ok(default),
        Some(t) => {
            let trimmed_text = string_of(&trim_chars(&chars_of(t.as_str()), Strip::Whitespace));
            match parse_number(trimmed_text.as_str(), signed, lo, hi) {
                Some(v) => Ok(v),
                None => Err(invalid_setting_message(key, t.as_str())),
            }
        },
    }
}

/// The server's settings from what the environment holds. A signing secret
/// that is not set is replaced by `ephemeral_secret` (sessions then end with
/// every restart).
pub fn config_from(raw: RawSettings, ephemeral_secret: String) -> (r: Result<Config, String>)
    ensures
        match settings_error(raw, ephemeral_secret@) {
            Some(m) => r matches Err(e) && e@ == m,
            None => r matches Ok(c) && {
                &&& c.database_url == raw.database_url->0
                &&& c.jwt_secret@ == secret_setting(raw, ephemeral_secret@)
                &&& c.port as int == port_setting(raw)->0
                &&& c.host@ == (match raw.host {
                    Some(h) => h@,
                    None => "127.0.0.1"@,
                })
                &&& c.jwt_ttl_hours as int == ttl_setting(raw)->0
                &&& c.max_upload_bytes as int == upload_setting(raw)->0
                &&& views_of(c.cors_origins@) == origins_of(comma_pieces(match raw.cors_origins {
                    Some(o) => o@,
                    None => default_cors_text(),
                }))
                &&& (c.web_dist is Some <==> raw.web_dist is Some)
                &&& path_made_from(c.upload_dir, match raw.upload_dir {
                    Some(d) => d@,
                    None => "./uploads"@,
                })
                &&& (c.web_dist matches Some(w) ==> path_made_from(w, raw.web_dist->0@))
            },
        },
{
    let RawSettings {
        database_url,
        jwt_secret,
        port,
        host,
        jwt_ttl_hours,
        max_upload_bytes,
        upload_dir,
        cors_origins,
        web_dist,
    } = raw;
    let database_url = match database_url {
        Some(u) => u,
        None => {
            return Err(string_from("falta la variable de entorno DATABASE_URL"));
        },
    };
    let jwt_secret = match jwt_secret {
        Some(s) => s,
        None => ephemeral_secret,
    };
    check_jwt_secret(jwt_secret.as_str())?;
    let port_value = number_from(port, "PORT", false, 0, 65535, DEFAULT_PORT as i128)?;
    let host = match host {
        Some(h) => h,
        None => string_from("127.0.0.1"),
    };
    let ttl_value = number_from(
        jwt_ttl_hours,
        "JWT_TTL_HOURS",
        true,
        -0x8000_0000_0000_0000,
        0x7fff_ffff_ffff_ffff,
        DEFAULT_JWT_TTL_HOURS as i128,
    )?;
    let upload_value = number_from(
        max_upload_bytes,
        "MAX_UPLOAD_BYTES",
        false,
        0,
        usize::MAX as i128,
        DEFAULT_MAX_UPLOAD_BYTES as i128,
    )?;
    let upload_dir = match upload_dir {
        Some(d) => path_of(d),
        None => path_of(string_from("./uploads")),
    };
    let cors_origins = match cors_origins {
        Some(o) => cors_origins_from(o.as_str()),
        None => cors_origins_from("http://localhost:5173,http://127.0.0.1:5173"),
    };
    let web_dist = match web_dist {
        Some(w) => Some(path_of(w)),
        None => None,
    };
    Ok(Config {
        database_url,
        port: port_value as u16,
        host,
        jwt_secret,
        jwt_ttl_hours: ttl_value as i64,
        upload_dir,
        max_upload_bytes: upload_value as usize,
        cors_origins,
        web_dist,
    })
}

} // verus!
