//! Rules of expenses: who takes part in one and what each pays, who may see
//! or change it, and what it means for the person looking at it.
use vstd::prelude::*;
use crate::error::{AppError, is_bad_request, is_forbidden, split_failure};
use crate::split::{
    compute_shares, ids_distinct, is_split_of, split_error, values_of, Participant, Share, SplitType,
};
use crate::sums::{all_nonnegative, total_of};
use crate::text::{push_chars, same_text, string_from, string_of, trim_text, trimmed};

verus! {

/// A requested share of an expense. What `value` means depends on the split
/// type: cents (`exact`), basis points (`percentage`), parts (`shares`); it is
/// ignored in `equal`.
pub struct SplitInput {
    pub user_id: u128,
    pub value: i64,
}

/// The participants that requested shares stand for, in the same order.
pub open spec fn participants_of(splits: Seq<SplitInput>) -> Seq<Participant> {
    splits.map_values(|s: SplitInput| Participant { user_id: s.user_id, value: s.value })
}

/// Every member taking part, each with value 0: an equal split between all.
pub open spec fn equal_among(members: Seq<u128>) -> Seq<Participant> {
    members.map_values(|m: u128| Participant { user_id: m, value: 0 })
}

/// Every requested participant is a member.
pub open spec fn all_members(splits: Seq<SplitInput>, members: Seq<u128>) -> bool {
    forall|k: int| 0 <= k < splits.len() ==> members.contains(#[trigger] splits[k].user_id)
}

fn is_member(members: &[u128], id: u128) -> (r: bool)
    ensures
        r == members@.contains(id),
{
    let mut i: usize = 0;
    while i < members.len()
        invariant
            i <= members.len(),
            forall|k: int| 0 <= k < i ==> members@[k] != id,
        decreases members.len() - i,
    {
        if members[i] == id {
            assert(members@[i as int] == id);
            return true;
        }
        i = i + 1;
    }
    false
}

/// Turns the requested shares into checked participants. Without requested
/// shares the expense is split equally between all members.
pub fn resolve_participants(splits: &[SplitInput], members: &[u128], split_type: SplitType) -> (r:
    Result<Vec<Participant>, AppError>)
    ensures
        splits@.len() == 0 && split_type != SplitType::Equal ==> is_bad_request(
            r,
            "indicá el reparto de cada participante"@,
        ),
        splits@.len() == 0 && split_type == SplitType::Equal ==> (r matches Ok(v) && v@
            == equal_among(members@)),
        splits@.len() > 0 && !all_members(splits@, members@) ==> is_bad_request(
            r,
            "hay participantes que no son miembros del grupo"@,
        ),
        splits@.len() > 0 && all_members(splits@, members@) ==> (r matches Ok(v) && v@
            == participants_of(splits@)),
{
    if splits.len() == 0 {
        if split_type != SplitType::Equal {
            return Err(AppError::BadRequest(string_from("indicá el reparto de cada participante")));
        }
        let mut v: Vec<Participant> = Vec::new();
        let mut i: usize = 0;
        while i < members.len()
            invariant
                i <= members.len(),
                v@ == equal_among(members@.take(i as int)),
            decreases members.len() - i,
        {
            v.push(Participant { user_id: members[i], value: 0 });
            i = i + 1;
            assert(v@ =~= equal_among(members@.take(i as int)));
        }
        assert(members@.take(members@.len() as int) =~= members@);
        return Ok(v);
    }
    let mut j: usize = 0;
    while j < splits.len()
        invariant
            j <= splits.len(),
            forall|k: int| 0 <= k < j ==> members@.contains(#[trigger] splits@[k].user_id),
        decreases splits.len() - j,
    {
        if !is_member(members, splits[j].user_id) {
            return Err(
                AppError::BadRequest(string_from("hay participantes que no son miembros del grupo")),
            );
        }
        j = j + 1;
    }
    let mut v: Vec<Participant> = Vec::new();
    let mut i: usize = 0;
    while i < splits.len()
        invariant
            i <= splits.len(),
            v@ == participants_of(splits@.take(i as int)),
        decreases splits.len() - i,
    {
        v.push(Participant { user_id: splits[i].user_id, value: splits[i].value });
        i = i + 1;
        assert(v@ =~= participants_of(splits@.take(i as int)));
    }
    assert(splits@.take(splits@.len() as int) =~= splits@);
    Ok(v)
}

/// Whoever paid a group expense has to be a member of the group.
pub fn check_payer(paid_by: u128, members: &[u128]) -> (r: Result<(), AppError>)
    ensures
        members@.contains(paid_by) ==> r is Ok,
        !members@.contains(paid_by) ==> is_bad_request(
            r,
            "quien pagó tiene que ser miembro del grupo"@,
        ),
{
    if !is_member(members, paid_by) {
        return Err(AppError::BadRequest(string_from("quien pagó tiene que ser miembro del grupo")));
    }
    Ok(())
}

/// The values of the participants add up without overflow whenever the
/// split gets far enough to add them.
pub open spec fn shares_computable(amount: i64, t: SplitType, ps: Seq<Participant>) -> bool {
    (amount > 0 && ps.len() > 0 && all_nonnegative(values_of(ps)) && ids_distinct(ps) && t
        != SplitType::Equal) ==> total_of(values_of(ps)) <= i64::MAX
}

/// The participants a group expense is split between.
pub open spec fn group_participants(splits: Seq<SplitInput>, members: Seq<u128>) -> Seq<Participant> {
    if splits.len() == 0 {
        equal_among(members)
    } else {
        participants_of(splits)
    }
}

/// What a split is answered with when it is refused: a bad request carrying
/// the split's message; else the shares.
pub open spec fn split_outcome(
    amount: i64,
    t: SplitType,
    ps: Seq<Participant>,
    r: Result<Vec<Share>, AppError>,
) -> bool {
    match split_error(amount, t, ps) {
        Some(e) => is_bad_request(r, e.text()),
        None => r matches Ok(s) && is_split_of(amount, t, ps, s@),
    }
}

/// The shares of a group expense: the payer must be a member, the requested
/// shares must name members (none requested: equal parts between all), and
/// the amount is split as `compute_shares` does.
pub fn group_expense_shares(
    amount_cents: i64,
    split_type: SplitType,
    paid_by: u128,
    members: &[u128],
    splits: &[SplitInput],
) -> (r: Result<Vec<Share>, AppError>)
    requires
        shares_computable(amount_cents, split_type, participants_of(splits@)),
    ensures
        !members@.contains(paid_by) ==> is_bad_request(
            r,
            "quien pagó tiene que ser miembro del grupo"@,
        ),
        members@.contains(paid_by) && splits@.len() == 0 && split_type != SplitType::Equal
            ==> is_bad_request(r, "indicá el reparto de cada participante"@),
        members@.contains(paid_by) && splits@.len() > 0 && !all_members(splits@, members@)
            ==> is_bad_request(r, "hay participantes que no son miembros del grupo"@),
        members@.contains(paid_by) && (splits@.len() == 0 ==> split_type == SplitType::Equal) && (
        splits@.len() > 0 ==> all_members(splits@, members@)) ==> split_outcome(
            amount_cents,
            split_type,
            group_participants(splits@, members@),
            r,
        ),
        r matches Ok(s) ==> total_of(crate::split::cents_of(s@)) == amount_cents,
{
    check_payer(paid_by, members)?;
    let participants = resolve_participants(splits, members, split_type)?;
    match compute_shares(amount_cents, split_type, &participants) {
        Ok(s) => Ok(s),
        Err(e) => Err(split_failure(e)),
    }
}

/// The shares of a personal expense: its one participant carries the exact
/// total.
pub fn personal_expense_shares(user_id: u128, amount_cents: i64) -> (r: Result<Vec<Share>, AppError>)
    ensures
        split_outcome(
            amount_cents,
            SplitType::Exact,
            seq![Participant { user_id: user_id, value: amount_cents }],
            r,
        ),
        r matches Ok(s) ==> total_of(crate::split::cents_of(s@)) == amount_cents,
{
    let participants = vec![Participant { user_id, value: amount_cents }];
    proof {
        assert(participants@ =~= seq![Participant { user_id: user_id, value: amount_cents }]);
        let vals = values_of(participants@);
        assert(vals =~= seq![amount_cents]);
        assert(total_of(vals) == amount_cents) by {
            reveal_with_fuel(crate::sums::prefix_sum, 2);
        }
    }
    match compute_shares(amount_cents, SplitType::Exact, &participants) {
        Ok(s) => Ok(s),
        Err(e) => Err(split_failure(e)),
    }
}

/// How an update changes an expense's note: an empty text clears it, a
/// missing field keeps the current one, anything else is kept trimmed.
pub open spec fn updated_note(requested: Option<Seq<char>>, current: Option<Seq<char>>) -> Option<
    Seq<char>,
> {
    match requested {
        Some(t) => if trimmed(t).len() == 0 {
            None
        } else {
            Some(trimmed(t))
        },
        None => current,
    }
}

pub open spec fn text_of(s: Option<String>) -> Option<Seq<char>> {
    match s {
        Some(t) => Some(t@),
        None => None,
    }
}

pub fn notes_update(requested: Option<&str>, current: Option<String>) -> (r: Option<String>)
    ensures
        text_of(r) == updated_note(
            match requested {
                Some(t) => Some(t@),
                None => None,
            },
            text_of(current),
        ),
{
    match requested {
        Some(t) => {
            let cs = trim_text(t);
            if cs.len() == 0 {
                None
            } else {
                Some(string_of(&cs))
            }
        },
        None => current,
    }
}

/// Whoever recorded an expense, whoever paid it, or the group's administrator
/// may change or delete it. `group_role` is the user's role in the expense's
/// group, when it has one and it was looked up.
pub fn ensure_can_modify(created_by: u128, paid_by: u128, user_id: u128, group_role: Option<&str>) -> (r:
    Result<(), AppError>)
    ensures
        (created_by == user_id || paid_by == user_id || (group_role matches Some(g) && g@
            == "owner"@)) ==> r is Ok,
        !(created_by == user_id || paid_by == user_id || (group_role matches Some(g) && g@
            == "owner"@)) ==> is_forbidden(
            r,
            "sólo quien cargó el gasto, quien lo pagó o el admin del grupo pueden modificarlo"@,
        ),
{
    if created_by == user_id || paid_by == user_id {
        return Ok(());
    }
    if let Some(g) = group_role {
        if same_text(g, "owner") {
            return Ok(());
        }
    }
    Err(
        AppError::Forbidden(
            string_from(
                "sólo quien cargó el gasto, quien lo pagó o el admin del grupo pueden modificarlo",
            ),
        ),
    )
}

/// Whether a user may see an expense. A group expense is seen by the group's
/// members: `Ok(Some(group))` asks the caller to check membership. A personal
/// expense is seen only by whoever recorded it.
pub fn expense_access(group_id: Option<u128>, created_by: u128, viewer: u128) -> (r: Result<
    Option<u128>,
    AppError,
>)
    ensures
        group_id matches Some(g) ==> r == Ok::<Option<u128>, AppError>(Some(g)),
        group_id is None && created_by == viewer ==> r == Ok::<Option<u128>, AppError>(None),
        group_id is None && created_by != viewer ==> is_forbidden(
            r,
            "este gasto personal no es tuyo"@,
        ),
{
    match group_id {
        Some(g) => Ok(Some(g)),
        None => {
            if created_by != viewer {
                Err(AppError::Forbidden(string_from("este gasto personal no es tuyo")))
            } else {
                Ok(None)
            }
        },
    }
}

/// What of an expense falls to `viewer`, summed over its shares
/// (`(user, cents)` pairs).
pub open spec fn share_of(viewer: u128, shares: Seq<(u128, i64)>) -> int
    decreases shares.len(),
{
    if shares.len() == 0 {
        0
    } else {
        share_of(viewer, shares.drop_last()) + if shares.last().0 == viewer {
            shares.last().1 as int
        } else {
            0
        }
    }
}

/// What an expense means for `viewer`: what they paid of it minus what falls
/// to them. Positive: they put in more than their part.
pub open spec fn net_for(payer_id: u128, amount_cents: i64, viewer: u128, shares: Seq<(u128, i64)>) -> int {
    (if payer_id == viewer {
        amount_cents as int
    } else {
        0
    }) - share_of(viewer, shares)
}

pub fn my_net_cents(payer_id: u128, amount_cents: i64, viewer: u128, shares: &[(u128, i64)]) -> (r:
    i64)
    requires
        i64::MIN <= share_of(viewer, shares@) <= i64::MAX,
        i64::MIN <= net_for(payer_id, amount_cents, viewer, shares@) <= i64::MAX,
    ensures
        r == net_for(payer_id, amount_cents, viewer, shares@),
{
    let mut mine: i128 = 0;
    let mut i: usize = 0;
    while i < shares.len()
        invariant
            i <= shares.len(),
            mine == share_of(viewer, shares@.take(i as int)),
            -0x8000_0000_0000_0000 * i <= mine <= 0x7fff_ffff_ffff_ffff * i,
            i <= usize::MAX,
        decreases shares.len() - i,
    {
        assert(shares@.take(i + 1).drop_last() =~= shares@.take(i as int));
        if shares[i].0 == viewer {
            mine = mine + shares[i].1 as i128;
        }
        i = i + 1;
    }
    assert(shares@.take(shares@.len() as int) =~= shares@);
    let paid: i128 = if payer_id == viewer {
        amount_cents as i128
    } else {
        0
    };
    (paid - mine) as i64
}

/// Nothing falls to a viewer who holds no share.
proof fn lemma_no_share(viewer: u128, shares: Seq<(u128, i64)>)
    requires
        forall|j: int| 0 <= j < shares.len() ==> (#[trigger] shares[j]).0 != viewer,
    ensures
        share_of(viewer, shares) == 0,
    decreases shares.len(),
{
    if shares.len() > 0 {
        lemma_no_share(viewer, shares.drop_last());
    }
}

/// A viewer holding exactly one share bears exactly that share.
proof fn lemma_single_share(viewer: u128, shares: Seq<(u128, i64)>, k: int)
    requires
        0 <= k < shares.len(),
        shares[k].0 == viewer,
        forall|j: int| 0 <= j < shares.len() && j != k ==> (#[trigger] shares[j]).0 != viewer,
    ensures
        share_of(viewer, shares) == shares[k].1 as int,
    decreases shares.len(),
{
    let rest = shares.drop_last();
    if k == shares.len() - 1 {
        assert forall|j: int| 0 <= j < rest.len() implies (#[trigger] rest[j]).0 != viewer by {
            assert(rest[j] == shares[j]);
        }
        lemma_no_share(viewer, rest);
    } else {
        assert forall|j: int| 0 <= j < rest.len() && j != k implies (#[trigger] rest[j]).0
            != viewer by {
            assert(rest[j] == shares[j]);
        }
        lemma_single_share(viewer, rest, k);
    }
}

/// For a viewer who holds exactly one share (the one at `k`), an expense
/// means what they paid of it minus that share: a viewer who did not pay is
/// down exactly their own share, whatever the other shares are.
pub proof fn law_net_of_one_share(
    payer_id: u128,
    amount_cents: i64,
    viewer: u128,
    shares: Seq<(u128, i64)>,
    k: int,
)
    requires
        0 <= k < shares.len(),
        shares[k].0 == viewer,
        forall|j: int| 0 <= j < shares.len() && j != k ==> (#[trigger] shares[j]).0 != viewer,
    ensures
        payer_id != viewer ==> net_for(payer_id, amount_cents, viewer, shares) == -(shares[k].1 as int),
        payer_id == viewer ==> net_for(payer_id, amount_cents, viewer, shares) == amount_cents
            - shares[k].1,
{
    lemma_single_share(viewer, shares, k);
}

/// A viewer with no share is up the whole amount when they paid it, and
/// untouched otherwise.
pub proof fn law_net_without_share(
    payer_id: u128,
    amount_cents: i64,
    viewer: u128,
    shares: Seq<(u128, i64)>,
)
    requires
        forall|j: int| 0 <= j < shares.len() ==> (#[trigger] shares[j]).0 != viewer,
    ensures
        payer_id != viewer ==> net_for(payer_id, amount_cents, viewer, shares) == 0,
        payer_id == viewer ==> net_for(payer_id, amount_cents, viewer, shares) == amount_cents,
{
    lemma_no_share(viewer, shares);
}

/// One more share changes the viewer's net by that share when it is
/// theirs, and not at all when it is someone else's.
pub proof fn law_net_per_share(
    payer_id: u128,
    amount_cents: i64,
    viewer: u128,
    shares: Seq<(u128, i64)>,
    user: u128,
    cents: i64,
)
    ensures
        user == viewer ==> net_for(payer_id, amount_cents, viewer, shares.push((user, cents)))
            == net_for(payer_id, amount_cents, viewer, shares) - cents,
        user != viewer ==> net_for(payer_id, amount_cents, viewer, shares.push((user, cents)))
            == net_for(payer_id, amount_cents, viewer, shares),
{
    assert(shares.push((user, cents)).drop_last() =~= shares);
}

/// Which expenses a listing covers.
pub enum ExpenseScope {
    /// The expenses of one group (membership checked by the caller).
    Group(u128),
    /// The user's personal expenses.
    PersonalOf(u128),
    /// Everything the user can see: their groups and their personal expenses.
    VisibleTo(u128),
}

pub fn expense_scope(group_id: Option<u128>, personal: Option<bool>, user_id: u128) -> (r:
    ExpenseScope)
    ensures
        group_id matches Some(g) ==> r == ExpenseScope::Group(g),
        group_id is None && personal == Some(true) ==> r == ExpenseScope::PersonalOf(user_id),
        group_id is None && personal != Some(true) ==> r == ExpenseScope::VisibleTo(user_id),
{
    match group_id {
        Some(g) => ExpenseScope::Group(g),
        None => match personal {
            Some(true) => ExpenseScope::PersonalOf(user_id),
            _ => ExpenseScope::VisibleTo(user_id),
        },
    }
}

/// How many expenses a page holds: 50 unless asked, and always 1 to 500.
pub fn page_limit(limit: Option<i64>) -> (r: i64)
    ensures
        r == match limit {
            Some(l) => if l < 1 {
                1
            } else if l > 500 {
                500
            } else {
                l
            },
            None => 50,
        },
{
    let l = match limit {
        Some(l) => l,
        None => 50,
    };
    if l < 1 {
        1
    } else if l > 500 {
        500
    } else {
        l
    }
}

/// Where a page starts: 0 unless asked, never negative.
pub fn page_offset(offset: Option<i64>) -> (r: i64)
    ensures
        r == match offset {
            Some(o) => if o < 0 {
                0
            } else {
                o
            },
            None => 0,
        },
{
    match offset {
        Some(o) => if o < 0 {
            0
        } else {
            o
        },
        None => 0,
    }
}

/// The pattern a text search matches descriptions and notes against: the
/// trimmed text anywhere; no search when the text is blank.
pub fn search_pattern(search: Option<&str>) -> (r: Option<String>)
    ensures
        match search {
            Some(s) => if trimmed(s@).len() == 0 {
                r is None
            } else {
                r matches Some(p) && p@ == seq!['%'] + trimmed(s@) + seq!['%']
            },
            None => r is None,
        },
{
    match search {
        Some(s) => {
            let t = trim_text(s);
            if t.len() == 0 {
                return None;
            }
            let mut p = string_from("%");
            push_chars(&mut p, &t);
            crate::text::push_char(&mut p, '%');
            proof {
                reveal_strlit("%");
                assert(p@ =~= seq!['%'] + trimmed(s@) + seq!['%']);
            }
            Some(p)
        },
        None => None,
    }
}

} // verus!
