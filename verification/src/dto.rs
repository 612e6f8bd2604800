//! Requests and responses of the API, and the statistics built from them.
//! All money travels as integer cents.
use vstd::prelude::*;
use vstd::std_specs::convert::FromSpecImpl;
use crate::text::{string_of, trim_text, trimmed};

verus! {

pub struct RegisterRequest {
    pub email: String,
    pub password: String,
    pub display_name: String,
    pub currency: Option<String>,
}

pub struct LoginRequest {
    pub email: String,
    pub password: String,
}

pub struct UpdateProfileRequest {
    pub display_name: Option<String>,
    pub avatar_url: Option<String>,
    pub currency: Option<String>,
}

pub struct ChangePasswordRequest {
    pub current_password: String,
    pub new_password: String,
}

pub struct JoinGroupRequest {
    pub invite_code: String,
}

pub struct AddMemberRequest {
    pub email: String,
}

pub struct CreateCommentRequest {
    pub body: String,
}

pub struct MessageResponse {
    pub message: String,
}

pub struct ErrorResponse {
    pub error: String,
}

/// An expense category as stored.
pub struct CategoryRow {
    pub id: i32,
    pub slug: String,
    pub name: String,
    pub icon: String,
}

/// An expense category as the API shows it.
pub struct CategoryResponse {
    pub id: i32,
    pub slug: String,
    pub name: String,
    pub icon: String,
}

impl From<CategoryRow> for CategoryResponse {
    fn from(row: CategoryRow) -> (r: Self) {
        CategoryResponse { id: row.id, slug: row.slug, name: row.name, icon: row.icon }
    }
}

impl FromSpecImpl<CategoryRow> for CategoryResponse {
    open spec fn obeys_from_spec() -> bool {
        true
    }

    open spec fn from_spec(row: CategoryRow) -> CategoryResponse {
        CategoryResponse { id: row.id, slug: row.slug, name: row.name, icon: row.icon }
    }
}

/// What was spent in one category.
pub struct CategoryBreakdown {
    pub category: CategoryResponse,
    pub total_cents: i64,
    pub expense_count: i64,
}

/// What was spent in one month (`YYYY-MM`).
pub struct MonthlyPoint {
    pub month: String,
    pub total_cents: i64,
}

pub struct StatsResponse {
    pub currency: String,
    pub total_cents: i64,
    pub expense_count: i64,
    pub by_category: Vec<CategoryBreakdown>,
    pub by_month: Vec<MonthlyPoint>,
}

/// Which expenses statistics cover.
pub enum StatsScope {
    /// One group's expenses, in full.
    Group(u128),
    /// The user's part of their personal expenses.
    Personal,
    /// The user's part of every expense they take part in.
    Everything,
}

pub fn stats_scope(group_id: Option<u128>, personal: Option<bool>) -> (r: StatsScope)
    ensures
        group_id matches Some(g) ==> r == StatsScope::Group(g),
        group_id is None && personal == Some(true) ==> r == StatsScope::Personal,
        group_id is None && personal != Some(true) ==> r == StatsScope::Everything,
{
    match group_id {
        Some(g) => StatsScope::Group(g),
        None => match personal {
            Some(true) => StatsScope::Personal,
            _ => StatsScope::Everything,
        },
    }
}

/// How many months back the monthly series goes: 6 unless asked, always 1 to 36.
pub fn stats_months(months: Option<i32>) -> (r: i32)
    ensures
        r == match months {
            Some(m) => if m < 1 {
                1
            } else if m > 36 {
                36
            } else {
                m
            },
            None => 6,
        },
{
    let m = match months {
        Some(m) => m,
        None => 6,
    };
    if m < 1 {
        1
    } else if m > 36 {
        36
    } else {
        m
    }
}

/// A category appears in the statistics only when something was spent in it.
pub open spec fn spent_in(c: CategoryBreakdown) -> bool {
    c.total_cents > 0
}

/// The statistics answer: the categories where something was spent, in the
/// order given, and the monthly series as it is.
pub fn stats_response(
    currency: String,
    total_cents: i64,
    expense_count: i64,
    by_category: Vec<CategoryBreakdown>,
    by_month: Vec<MonthlyPoint>,
) -> (r: StatsResponse)
    ensures
        r.currency == currency,
        r.total_cents == total_cents,
        r.expense_count == expense_count,
        r.by_category@ == by_category@.filter(|c: CategoryBreakdown| spent_in(c)),
        r.by_month == by_month,
{
    let mut rest = by_category;
    let ghost all = rest@;
    let mut kept: Vec<CategoryBreakdown> = Vec::new();
    let ghost mut done: Seq<CategoryBreakdown> = Seq::empty();
    while rest.len() > 0
        invariant
            all == done + rest@,
            kept@ == done.filter(|c: CategoryBreakdown| spent_in(c)),
        decreases rest.len(),
    {
        let ghost before = rest@;
        let c = rest.remove(0);
        let ghost gc = c;
        proof {
            assert(before =~= seq![c] + rest@);
            reveal_with_fuel(Seq::filter, 1);
            assert((done + seq![c]).drop_last() =~= done);
        }
        let keep = c.total_cents > 0;
        if keep {
            kept.push(c);
        }
        proof {
            done = done + seq![gc];
            assert(all =~= done + rest@);
        }
    }
    assert(done =~= all);
    StatsResponse { currency, total_cents, expense_count, by_category: kept, by_month }
}

/// A text without surrounding whitespace, as a new string (currency codes
/// are stored padded to their column's width).
pub fn trimmed_string(s: &str) -> (r: String)
    ensures
        r@ == trimmed(s@),
{
    string_of(&trim_text(s))
}

} // verus!
