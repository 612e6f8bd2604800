//! Members' balances in a group and the transfers suggested to settle them.
use vstd::prelude::*;
use crate::settle::{settlement_plan, simplify_debts, NetBalance, Transfer};

verus! {

/// Short public view of a user.
pub struct UserBrief {
    pub id: u128,
    pub display_name: String,
    pub email: String,
    pub avatar_url: Option<String>,
}

/// A copy of a user's short view, field for field.
pub fn copy_brief(u: &UserBrief) -> (r: UserBrief)
    ensures
        r == *u,
{
    UserBrief {
        id: u.id,
        display_name: u.display_name.clone(),
        email: u.email.clone(),
        avatar_url: match &u.avatar_url {
            Some(a) => Some(a.clone()),
            None => None,
        },
    }
}

/// What a member put into a group and what fell to them. `paid_cents` sums
/// the expenses they paid and the settlements they made; `owed_cents` sums
/// their share of each expense and the settlements they received.
pub struct BalanceRow {
    pub user_id: u128,
    pub display_name: String,
    pub email: String,
    pub avatar_url: Option<String>,
    pub paid_cents: i64,
    pub owed_cents: i64,
}

/// The net of a member's balance fits in an `i64` and can be negated.
pub open spec fn net_fits(r: BalanceRow) -> bool {
    i64::MIN < r.paid_cents - r.owed_cents <= i64::MAX
}

impl BalanceRow {
    /// What the member put in beyond what fell to them (negative: what they owe).
    pub fn net_cents(&self) -> (n: i64)
        requires
            i64::MIN <= self.paid_cents - self.owed_cents <= i64::MAX,
        ensures
            n == self.paid_cents - self.owed_cents,
    {
        self.paid_cents - self.owed_cents
    }

    /// The member's short view.
    pub fn user(&self) -> (u: UserBrief)
        ensures
            u.id == self.user_id,
            u.display_name == self.display_name,
            u.email == self.email,
            u.avatar_url == self.avatar_url,
    {
        UserBrief {
            id: self.user_id,
            display_name: self.display_name.clone(),
            email: self.email.clone(),
            avatar_url: match &self.avatar_url {
                Some(a) => Some(a.clone()),
                None => None,
            },
        }
    }
}

/// The short view of the member a row is about.
pub open spec fn brief_of(r: BalanceRow) -> UserBrief {
    UserBrief {
        id: r.user_id,
        display_name: r.display_name,
        email: r.email,
        avatar_url: r.avatar_url,
    }
}

/// A member's balance as the API shows it.
pub struct BalanceEntry {
    pub user: UserBrief,
    pub net_cents: i64,
    pub paid_cents: i64,
    pub owed_cents: i64,
}

/// The balance entries of the given rows, in the same order.
pub fn to_balance_entries(rows: &[BalanceRow]) -> (v: Vec<BalanceEntry>)
    requires
        forall|k: int| 0 <= k < rows@.len() ==> net_fits(#[trigger] rows@[k]),
    ensures
        v@.len() == rows@.len(),
        forall|k: int|
            0 <= k < rows@.len() ==> {
                let e = #[trigger] v@[k];
                &&& e.user == brief_of(rows@[k])
                &&& e.net_cents == rows@[k].paid_cents - rows@[k].owed_cents
                &&& e.paid_cents == rows@[k].paid_cents
                &&& e.owed_cents == rows@[k].owed_cents
            },
{
    let mut v: Vec<BalanceEntry> = Vec::new();
    let mut i: usize = 0;
    while i < rows.len()
        invariant
            i <= rows@.len(),
            v@.len() == i,
            forall|k: int| 0 <= k < rows@.len() ==> net_fits(#[trigger] rows@[k]),
            forall|k: int|
                0 <= k < i ==> {
                    let e = #[trigger] v@[k];
                    &&& e.user == brief_of(rows@[k])
                    &&& e.net_cents == rows@[k].paid_cents - rows@[k].owed_cents
                    &&& e.paid_cents == rows@[k].paid_cents
                    &&& e.owed_cents == rows@[k].owed_cents
                },
        decreases rows.len() - i,
    {
        let r = &rows[i];
        assert(net_fits(rows@[i as int]));
        v.push(
            BalanceEntry {
                user: r.user(),
                net_cents: r.net_cents(),
                paid_cents: r.paid_cents,
                owed_cents: r.owed_cents,
            },
        );
        i = i + 1;
    }
    v
}

/// The net balances of the given rows, in the same order.
pub open spec fn nets_of_rows(rows: Seq<BalanceRow>) -> Seq<NetBalance> {
    rows.map_values(
        |r: BalanceRow| NetBalance { user_id: r.user_id, net_cents: (r.paid_cents - r.owed_cents) as i64 },
    )
}

/// A transfer the API suggests, with both people shown.
pub struct SuggestedTransfer {
    pub from: UserBrief,
    pub to: UserBrief,
    pub amount_cents: i64,
}

/// `k` is the last row about user `id`.
pub open spec fn is_last_row_of(rows: Seq<BalanceRow>, id: u128, k: int) -> bool {
    &&& 0 <= k < rows.len()
    &&& rows[k].user_id == id
    &&& forall|j: int| k < j < rows.len() ==> rows[j].user_id != id
}

/// Index of the last row about user `id`, or -1 when there is none.
pub open spec fn last_row_index(rows: Seq<BalanceRow>, id: u128) -> int
    decreases rows.len(),
{
    if rows.len() == 0 {
        -1
    } else if rows.last().user_id == id {
        rows.len() - 1
    } else {
        last_row_index(rows.drop_last(), id)
    }
}

pub proof fn lemma_last_row_index(rows: Seq<BalanceRow>, id: u128)
    ensures
        -1 <= last_row_index(rows, id) < rows.len(),
        last_row_index(rows, id) >= 0 ==> is_last_row_of(rows, id, last_row_index(rows, id)),
        last_row_index(rows, id) == -1 ==> forall|j: int| 0 <= j < rows.len() ==> rows[j].user_id != id,
    decreases rows.len(),
{
    if rows.len() > 0 && rows.last().user_id != id {
        lemma_last_row_index(rows.drop_last(), id);
        assert forall|j: int| 0 <= j < rows.len() - 1 implies rows[j] == rows.drop_last()[j] by {}
    }
}

/// The short view of user `id` taken from the last row about them, if any.
pub(crate) fn last_brief(rows: &[BalanceRow], id: u128) -> (r: Option<UserBrief>)
    ensures
        r matches Some(u) ==> last_row_index(rows@, id) >= 0 && u == brief_of(
            rows@[last_row_index(rows@, id)],
        ),
        r is None ==> last_row_index(rows@, id) == -1,
        r matches Some(u) ==> exists|k: int| is_last_row_of(rows@, id, k) && u == brief_of(rows@[k]),
        r is None ==> forall|k: int| 0 <= k < rows@.len() ==> (#[trigger] rows@[k]).user_id != id,
{
    let mut i: usize = rows.len();
    assert(rows@.take(i as int) =~= rows@);
    while i > 0
        invariant
            i <= rows@.len(),
            forall|j: int| i <= j < rows@.len() ==> (#[trigger] rows@[j]).user_id != id,
            last_row_index(rows@, id) == last_row_index(rows@.take(i as int), id),
        decreases i,
    {
        proof {
            assert(rows@.take(i as int).drop_last() =~= rows@.take(i - 1));
        }
        i = i - 1;
        if rows[i].user_id == id {
            let u = rows[i].user();
            assert(is_last_row_of(rows@, id, i as int));
            return Some(u);
        }
    }
    None
}

/// The net balances of the rows, in the same order.
pub(crate) fn nets_of(rows: &[BalanceRow]) -> (nets: Vec<NetBalance>)
    requires
        forall|k: int| 0 <= k < rows@.len() ==> net_fits(#[trigger] rows@[k]),
    ensures
        nets@ == nets_of_rows(rows@),
{
    let mut nets: Vec<NetBalance> = Vec::new();
    let mut i: usize = 0;
    while i < rows.len()
        invariant
            i <= rows@.len(),
            forall|k: int| 0 <= k < rows@.len() ==> net_fits(#[trigger] rows@[k]),
            nets@ == nets_of_rows(rows@.take(i as int)),
        decreases rows.len() - i,
    {
        assert(net_fits(rows@[i as int]));
        nets.push(NetBalance { user_id: rows[i].user_id, net_cents: rows[i].net_cents() });
        i = i + 1;
        assert(nets@ =~= nets_of_rows(rows@.take(i as int)));
    }
    assert(rows@.take(rows@.len() as int) =~= rows@);
    nets
}

/// The transfers that settle a group, each with the short views of both
/// people, taken from the rows: the plan that `simplify_debts` makes from the
/// members' nets, in the same order.
pub fn suggested_transfers(rows: &[BalanceRow]) -> (v: Vec<SuggestedTransfer>)
    requires
        forall|k: int| 0 <= k < rows@.len() ==> net_fits(#[trigger] rows@[k]),
    ensures
        v@.len() == settlement_plan(nets_of_rows(rows@)).len(),
        forall|k: int|
            0 <= k < v@.len() ==> {
                let t = settlement_plan(nets_of_rows(rows@))[k];
                &&& (#[trigger] v@[k]).amount_cents == t.amount_cents
                &&& exists|a: int| is_last_row_of(rows@, t.from, a) && v@[k].from == brief_of(rows@[a])
                &&& exists|b: int| is_last_row_of(rows@, t.to, b) && v@[k].to == brief_of(rows@[b])
            },
{
    let nets = nets_of(rows);
    let transfers = simplify_debts(&nets);
    let ghost plan = settlement_plan(nets_of_rows(rows@));
    let mut v: Vec<SuggestedTransfer> = Vec::new();
    let mut k: usize = 0;
    while k < transfers.len()
        invariant
            k <= transfers@.len(),
            transfers@ == plan,
            plan == settlement_plan(nets_of_rows(rows@)),
            nets@ == nets_of_rows(rows@),
            v@.len() == k,
            forall|q: int|
                0 <= q < transfers@.len() ==> (exists|m: int|
                    0 <= m < nets@.len() && (#[trigger] nets@[m]).user_id == (
                    #[trigger] transfers@[q]).from) && (exists|m: int|
                    0 <= m < nets@.len() && (#[trigger] nets@[m]).user_id == transfers@[q].to),
            forall|q: int|
                0 <= q < k ==> {
                    let t = plan[q];
                    &&& (#[trigger] v@[q]).amount_cents == t.amount_cents
                    &&& exists|a: int| is_last_row_of(rows@, t.from, a) && v@[q].from == brief_of(rows@[a])
                    &&& exists|b: int| is_last_row_of(rows@, t.to, b) && v@[q].to == brief_of(rows@[b])
                },
        decreases transfers.len() - k,
    {
        let t: &Transfer = &transfers[k];
        let from = last_brief(rows, t.from);
        let to = last_brief(rows, t.to);
        match (from, to) {
            (Some(f), Some(d)) => {
                v.push(SuggestedTransfer { from: f, to: d, amount_cents: t.amount_cents });
            },
            _ => {
                proof {
                    let m1 = choose|m: int| 0 <= m < nets@.len() && nets@[m].user_id == transfers@[k as int].from;
                    let m2 = choose|m: int| 0 <= m < nets@.len() && nets@[m].user_id == transfers@[k as int].to;
                    assert(nets@[m1].user_id == rows@[m1].user_id);
                    assert(nets@[m2].user_id == rows@[m2].user_id);
                }
                assert(false);
                return v;
            },
        }
        k = k + 1;
    }
    v
}

} // verus!
