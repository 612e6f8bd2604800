//! Rules of groups: what a new group gets by default, how its fields are
//! updated, who may act on it and when a member may leave or be removed.
use vstd::prelude::*;
use crate::error::{AppError, is_bad_request, is_conflict, is_forbidden};
use crate::text::{
    lowercase_of, same_text, string_from, string_of, to_uppercase, trim_text, trimmed, uppercase_of,
};
use crate::validate::{
    currency, currency_ok, currency_refusal, group_kind, group_kind_refusal, is_group_kind,
};

verus! {

/// The emoji a group of the given kind gets when none is chosen.
pub open spec fn emoji_of(kind: Seq<char>) -> Seq<char> {
    if kind == "trip"@ {
        "✈️"@
    } else if kind == "home"@ {
        "🏠"@
    } else if kind == "couple"@ {
        "❤️"@
    } else if kind == "event"@ {
        "🎉"@
    } else {
        "🌎"@
    }
}

pub fn default_emoji(kind: &str) -> (r: &'static str)
    ensures
        r@ == emoji_of(kind@),
{
    if same_text(kind, "trip") {
        "✈️"
    } else if same_text(kind, "home") {
        "🏠"
    } else if same_text(kind, "couple") {
        "❤️"
    } else if same_text(kind, "event") {
        "🎉"
    } else {
        "🌎"
    }
}

/// The emoji of a new group: the one asked for unless it is blank, else the
/// default of its kind.
pub fn group_emoji(requested: Option<&str>, kind: &str) -> (r: String)
    ensures
        r@ == match requested {
            Some(e) => if trimmed(e@).len() > 0 {
                e@
            } else {
                emoji_of(kind@)
            },
            None => emoji_of(kind@),
        },
{
    if let Some(e) = requested {
        let t = trim_text(e);
        if t.len() > 0 {
            return string_from(e);
        }
    }
    string_from(default_emoji(kind))
}

/// The kind of a new group: the one asked for, validated, or `trip`.
pub fn new_group_kind(requested: Option<&str>) -> (r: Result<String, AppError>)
    ensures
        match requested {
            Some(k) => if is_group_kind(lowercase_of(trimmed(k@))) {
                r matches Ok(v) && v@ == lowercase_of(trimmed(k@))
            } else {
                is_bad_request(r, group_kind_refusal())
            },
            None => r matches Ok(v) && v@ == "trip"@,
        },
{
    match requested {
        Some(k) => group_kind(k),
        None => Ok(string_from("trip")),
    }
}

/// The currency of a new group: the one asked for, validated, or else the
/// creator's own currency without surrounding whitespace.
pub fn group_currency(requested: Option<&str>, creator_currency: &str) -> (r: Result<String, AppError>)
    ensures
        match requested {
            Some(c) => if currency_ok(uppercase_of(trimmed(c@))) {
                r matches Ok(v) && v@ == uppercase_of(trimmed(c@))
            } else {
                is_bad_request(r, currency_refusal())
            },
            None => r matches Ok(v) && v@ == trimmed(creator_currency@),
        },
{
    match requested {
        Some(c) => currency(c),
        None => {
            let t = trim_text(creator_currency);
            Ok(string_of(&t))
        },
    }
}

/// The end of a group's period cannot come before its start. Dates are given
/// as day numbers.
pub fn check_date_range(start: Option<i64>, end: Option<i64>) -> (r: Result<(), AppError>)
    ensures
        (start matches Some(s) && end matches Some(e) && e < s) ==> is_bad_request(
            r,
            "la fecha de fin no puede ser anterior a la de inicio"@,
        ),
        !(start matches Some(s) && end matches Some(e) && e < s) ==> r is Ok,
{
    if let (Some(s), Some(e)) = (start, end) {
        if e < s {
            return Err(
                AppError::BadRequest(
                    string_from("la fecha de fin no puede ser anterior a la de inicio"),
                ),
            );
        }
    }
    Ok(())
}

/// How an update changes a group's description: an empty text clears it, a
/// missing field leaves it as it is.
pub struct DescriptionUpdate {
    /// The new description, trimmed, when there is one.
    pub text: Option<String>,
    /// Whether the description is cleared.
    pub clear: bool,
}

pub fn description_update(requested: Option<&str>) -> (r: DescriptionUpdate)
    ensures
        requested is None ==> r.text is None && !r.clear,
        requested matches Some(d) ==> if trimmed(d@).len() == 0 {
            r.text is None && r.clear
        } else {
            r.text matches Some(t) && t@ == trimmed(d@) && !r.clear
        },
{
    match requested {
        None => DescriptionUpdate { text: None, clear: false },
        Some(d) => {
            let t = trim_text(d);
            if t.len() == 0 {
                DescriptionUpdate { text: None, clear: true }
            } else {
                DescriptionUpdate { text: Some(string_of(&t)), clear: false }
            }
        },
    }
}

/// An invite code as typed is compared without surrounding whitespace and in
/// upper case.
pub fn normalize_invite_code(raw: &str) -> (r: String)
    ensures
        r@ == uppercase_of(trimmed(raw@)),
{
    let t = string_of(&trim_text(raw));
    to_uppercase(t.as_str())
}

/// A user acts in a group only as a member: their role there, when they
/// have one.
pub fn membership_role(found: Option<String>) -> (r: Result<String, AppError>)
    ensures
        found matches Some(role) ==> r == Ok::<String, AppError>(role),
        found is None ==> is_forbidden(r, "no pertenecés a este grupo"@),
{
    match found {
        Some(role) => Ok(role),
        None => Err(AppError::Forbidden(string_from("no pertenecés a este grupo"))),
    }
}

/// The role a member is shown with: the one recorded, or `member`.
pub fn member_role(recorded: Option<String>) -> (r: String)
    ensures
        r@ == match recorded {
            Some(role) => role@,
            None => "member"@,
        },
{
    match recorded {
        Some(role) => role,
        None => string_from("member"),
    }
}

/// Only the group's administrator may do this.
pub fn require_owner_role(role: &str) -> (r: Result<(), AppError>)
    ensures
        role@ == "owner"@ ==> r is Ok,
        role@ != "owner"@ ==> is_forbidden(r, "sólo el administrador del grupo puede hacer esto"@),
{
    if same_text(role, "owner") {
        Ok(())
    } else {
        Err(AppError::Forbidden(string_from("sólo el administrador del grupo puede hacer esto")))
    }
}

/// Whether a member may be removed, judged before the removal: anyone may
/// leave, only the administrator may remove someone else, and nobody with a
/// pending balance can go. `Ok(true)` asks the caller to check, with
/// `check_last_owner`, that an administrator leaving is not the last one.
pub fn check_removal(actor: u128, target: u128, actor_role: &str, target_net: Option<i64>) -> (r:
    Result<bool, AppError>)
    ensures
        target != actor && actor_role@ != "owner"@ ==> is_forbidden(
            r,
            "sólo el administrador puede sacar a otros miembros"@,
        ),
        !(target != actor && actor_role@ != "owner"@) && (target_net matches Some(n) && n != 0)
            ==> is_conflict(
            r,
            "esa persona tiene saldo pendiente en el grupo: salden las cuentas antes de sacarla"@,
        ),
        !(target != actor && actor_role@ != "owner"@) && !(target_net matches Some(n) && n != 0)
            ==> r == Ok::<bool, AppError>(target == actor && actor_role@ == "owner"@),
{
    let is_owner = same_text(actor_role, "owner");
    if target != actor && !is_owner {
        return Err(
            AppError::Forbidden(string_from("sólo el administrador puede sacar a otros miembros")),
        );
    }
    if let Some(n) = target_net {
        if n != 0 {
            return Err(
                AppError::Conflict(
                    string_from(
                        "esa persona tiene saldo pendiente en el grupo: salden las cuentas antes de sacarla",
                    ),
                ),
            );
        }
    }
    Ok(target == actor && is_owner)
}

/// An administrator leaving must not leave the group without one: refused
/// when no other administrator remains and other members do.
pub fn check_last_owner(other_owners: i64, members: i64) -> (r: Result<(), AppError>)
    ensures
        other_owners == 0 && members > 1 ==> is_conflict(
            r,
            "sos el único administrador: pasale el rol a otro miembro o eliminá el grupo"@,
        ),
        !(other_owners == 0 && members > 1) ==> r is Ok,
{
    if other_owners == 0 && members > 1 {
        return Err(
            AppError::Conflict(
                string_from(
                    "sos el único administrador: pasale el rol a otro miembro o eliminá el grupo",
                ),
            ),
        );
    }
    Ok(())
}

/// How many invite codes are tried before giving up.
pub const INVITE_ATTEMPTS: u32 = 5;

/// After an attempt to store a new invite code collided with an existing one:
/// whether another code may be tried, given how many attempts were made.
pub fn may_retry_invite(attempts_made: u32) -> (r: bool)
    ensures
        r == (attempts_made < INVITE_ATTEMPTS),
{
    attempts_made < INVITE_ATTEMPTS
}

/// The characters invite codes are made of: upper-case letters and digits
/// without the ones easily mistaken for each other (I, O, 0, 1).
pub open spec fn invite_alphabet() -> Seq<char> {
    seq![
        'A', 'B', 'C', 'D', 'E', 'F', 'G', 'H', 'J', 'K', 'L', 'M', 'N', 'P', 'Q', 'R',
        'S', 'T', 'U', 'V', 'W', 'X', 'Y', 'Z', '2', '3', '4', '5', '6', '7', '8', '9',
    ]
}

/// Length of an invite code.
pub const INVITE_CODE_LEN: usize = 8;

/// A number in `0..n` drawn with rand's thread-local generator
/// (`Rng::gen_range`). Only its range is stated.
#[verifier::external_body]
fn random_below(n: usize) -> (r: usize)
    requires
        n > 0,
    ensures
        r < n,
{
    rand::Rng::gen_range(&mut rand::thread_rng(), 0..n)
}

/// The invite code spelled by the given positions in the invite alphabet.
pub open spec fn code_of(draws: Seq<usize>) -> Seq<char> {
    Seq::new(draws.len(), |k: int| invite_alphabet()[draws[k] as int])
}

/// Different draws spell different codes: the 32 characters of the invite
/// alphabet are all distinct, so a code tells back the draws it was spelled
/// from, and two codes agree only where their draws do.
pub proof fn law_codes_tell_draws_apart(d1: Seq<usize>, d2: Seq<usize>)
    requires
        forall|k: int| 0 <= k < d1.len() ==> d1[k] < 32,
        forall|k: int| 0 <= k < d2.len() ==> d2[k] < 32,
        code_of(d1) == code_of(d2),
    ensures
        d1 == d2,
{
    assert(d1.len() == code_of(d1).len() && d2.len() == code_of(d2).len());
    assert forall|k: int| 0 <= k < d1.len() implies d1[k] == d2[k] by {
        let a = d1[k] as int;
        let b = d2[k] as int;
        assert(code_of(d1)[k] == invite_alphabet()[a]);
        assert(code_of(d2)[k] == invite_alphabet()[b]);
        lemma_alphabet_distinct(a, b);
    }
    assert(d1 =~= d2);
}

/// Where a character stands in the invite alphabet (32 when it is not in it).
spec fn position_in_alphabet(c: char) -> int {
    if c == 'A' {
        0
    } else if c == 'B' {
        1
    } else if c == 'C' {
        2
    } else if c == 'D' {
        3
    } else if c == 'E' {
        4
    } else if c == 'F' {
        5
    } else if c == 'G' {
        6
    } else if c == 'H' {
        7
    } else if c == 'J' {
        8
    } else if c == 'K' {
        9
    } else if c == 'L' {
        10
    } else if c == 'M' {
        11
    } else if c == 'N' {
        12
    } else if c == 'P' {
        13
    } else if c == 'Q' {
        14
    } else if c == 'R' {
        15
    } else if c == 'S' {
        16
    } else if c == 'T' {
        17
    } else if c == 'U' {
        18
    } else if c == 'V' {
        19
    } else if c == 'W' {
        20
    } else if c == 'X' {
        21
    } else if c == 'Y' {
        22
    } else if c == 'Z' {
        23
    } else if c == '2' {
        24
    } else if c == '3' {
        25
    } else if c == '4' {
        26
    } else if c == '5' {
        27
    } else if c == '6' {
        28
    } else if c == '7' {
        29
    } else if c == '8' {
        30
    } else if c == '9' {
        31
    } else {
        32
    }
}

proof fn lemma_alphabet_distinct(a: int, b: int)
    requires
        0 <= a < 32,
        0 <= b < 32,
        invite_alphabet()[a] == invite_alphabet()[b],
    ensures
        a == b,
{
    let s = invite_alphabet();
    assert(position_in_alphabet(s[a]) == a);
    assert(position_in_alphabet(s[b]) == b);
}

/// The invite code whose characters are the given positions (each below
/// 32) in the invite alphabet, in order.
pub fn invite_code_from(draws: &[usize]) -> (r: String)
    requires
        forall|k: int| 0 <= k < draws@.len() ==> draws@[k] < 32,
    ensures
        r@ == code_of(draws@),
{
    let alphabet: [char; 32] = [
        'A', 'B', 'C', 'D', 'E', 'F', 'G', 'H', 'J', 'K', 'L', 'M', 'N', 'P', 'Q', 'R',
        'S', 'T', 'U', 'V', 'W', 'X', 'Y', 'Z', '2', '3', '4', '5', '6', '7', '8', '9',
    ];
    assert(alphabet@ =~= invite_alphabet());
    let mut code = String::new();
    let mut k: usize = 0;
    while k < draws.len()
        invariant
            k <= draws@.len(),
            alphabet@ == invite_alphabet(),
            forall|q: int| 0 <= q < draws@.len() ==> draws@[q] < 32,
            code@ == code_of(draws@.take(k as int)),
        decreases draws.len() - k,
    {
        let c = alphabet[draws[k]];
        crate::text::push_char(&mut code, c);
        k = k + 1;
        assert(code@ =~= code_of(draws@.take(k as int)));
    }
    assert(draws@.take(k as int) =~= draws@);
    code
}

/// Whether `d` is a value that `random_below(n)` returned.
pub closed spec fn drawn_below(d: usize, n: usize) -> bool {
    call_ensures(random_below, (n,), d)
}

/// A short, readable random invite code: eight positions, each drawn on its
/// own from the random source, spelled by `invite_code_from`.
pub fn generate_invite_code() -> (r: String)
    ensures
        exists|draws: Seq<usize>|
            draws.len() == INVITE_CODE_LEN && (forall|k: int| 0 <= k < draws.len() ==> draws[k] < 32)
                && (forall|k: int| 0 <= k < draws.len() ==> #[trigger] drawn_below(draws[k], 32))
                && r@ == #[trigger] code_of(draws),
        r@.len() == INVITE_CODE_LEN,
        forall|i: int| 0 <= i < r@.len() ==> invite_alphabet().contains(#[trigger] r@[i]),
{
    let mut draws: Vec<usize> = Vec::new();
    while draws.len() < INVITE_CODE_LEN
        invariant
            draws@.len() <= INVITE_CODE_LEN,
            forall|k: int| 0 <= k < draws@.len() ==> draws@[k] < 32,
            forall|k: int| 0 <= k < draws@.len() ==> #[trigger] drawn_below(draws@[k], 32),
        decreases INVITE_CODE_LEN - draws.len(),
    {
        let d = random_below(32);
        assert(drawn_below(d, 32) && d < 32);
        draws.push(d);
    }
    let r = invite_code_from(&draws);
    assert forall|i: int| 0 <= i < r@.len() implies invite_alphabet().contains(#[trigger] r@[i]) by {
        assert(r@[i] == invite_alphabet()[draws@[i] as int]);
    }
    r
}

} // verus!
