//! The dashboard's view of debts: what the user owes each person and what
//! each person owes the user, added up over all their active groups.
use vstd::prelude::*;
use crate::balances::{
    brief_of, copy_brief, last_brief, last_row_index, lemma_last_row_index, net_fits, nets_of,
    nets_of_rows, BalanceRow, UserBrief,
};
use crate::settle::{settlement_plan, simplify_debts, Transfer};

verus! {

/// The user's part in a settlement plan, transfer by transfer: paying someone
/// counts against the user, being paid counts for them. Transfers between
/// other people are left out.
pub open spec fn my_moves(plan: Seq<Transfer>, me: u128) -> Seq<(u128, int)>
    decreases plan.len(),
{
    if plan.len() == 0 {
        Seq::empty()
    } else {
        let rest = my_moves(plan.drop_last(), me);
        let t = plan.last();
        if t.from == me {
            rest.push((t.to, -(t.amount_cents as int)))
        } else if t.to == me {
            rest.push((t.from, t.amount_cents as int))
        } else {
            rest
        }
    }
}

/// The user's moves in the plan that settles one group.
pub open spec fn group_moves(rows: Seq<BalanceRow>, me: u128) -> Seq<(u128, int)> {
    my_moves(settlement_plan(nets_of_rows(rows)), me)
}

/// Where person `id` stands in a ledger (its length when absent).
pub open spec fn position_of(led: Seq<(UserBrief, int)>, id: u128) -> int
    decreases led.len(),
{
    if led.len() == 0 {
        0
    } else if led[0].0.id == id {
        0
    } else {
        1 + position_of(led.drop_first(), id)
    }
}

pub proof fn lemma_position_of(led: Seq<(UserBrief, int)>, id: u128)
    ensures
        0 <= position_of(led, id) <= led.len(),
        position_of(led, id) < led.len() ==> led[position_of(led, id)].0.id == id,
        forall|j: int| 0 <= j < position_of(led, id) ==> led[j].0.id != id,
    decreases led.len(),
{
    if led.len() > 0 && led[0].0.id != id {
        lemma_position_of(led.drop_first(), id);
        assert forall|j: int| 0 <= j < position_of(led, id) implies led[j].0.id != id by {
            if j > 0 {
                assert(led[j] == led.drop_first()[j - 1]);
            }
        }
    }
}

/// The ledger after adding `d` to what stands with person `other`: a person
/// seen for the first time enters at the end, shown as the group's rows show
/// them.
pub open spec fn credited(led: Seq<(UserBrief, int)>, rows: Seq<BalanceRow>, other: u128, d: int) -> Seq<
    (UserBrief, int),
> {
    let k = position_of(led, other);
    if k < led.len() {
        led.update(k, (led[k].0, led[k].1 + d))
    } else {
        led.push((brief_of(rows[last_row_index(rows, other)]), d))
    }
}

/// The ledger after a group's moves, one after the other.
pub open spec fn after_moves(led: Seq<(UserBrief, int)>, rows: Seq<BalanceRow>, moves: Seq<(u128, int)>) -> Seq<
    (UserBrief, int),
>
    decreases moves.len(),
{
    if moves.len() == 0 {
        led
    } else {
        let m = moves.last();
        credited(after_moves(led, rows, moves.drop_last()), rows, m.0, m.1)
    }
}

/// What stands between the user and each person after all the groups, in
/// the order people were first met.
pub open spec fn ledger_of(groups: Seq<Seq<BalanceRow>>, me: u128) -> Seq<(UserBrief, int)>
    decreases groups.len(),
{
    if groups.len() == 0 {
        Seq::empty()
    } else {
        let g = groups.last();
        after_moves(ledger_of(groups.drop_last(), me), g, group_moves(g, me))
    }
}

/// Every member's net balance fits, in every group.
pub open spec fn groups_fit(groups: Seq<Seq<BalanceRow>>) -> bool {
    forall|g: int, k: int|
        0 <= g < groups.len() && 0 <= k < groups[g].len() ==> net_fits(#[trigger] groups[g][k])
}

/// How many rows all the groups hold together.
pub open spec fn rows_count(groups: Seq<Seq<BalanceRow>>) -> int
    decreases groups.len(),
{
    if groups.len() == 0 {
        0
    } else {
        rows_count(groups.drop_last()) + groups.last().len()
    }
}

/// A running total of the ledger, in exact cents.
pub struct PersonTotal {
    pub user: UserBrief,
    pub net_cents: i128,
}

pub open spec fn ledger_view(v: Seq<PersonTotal>) -> Seq<(UserBrief, int)> {
    v.map_values(|p: PersonTotal| (p.user, p.net_cents as int))
}

/// Every running total is at most `steps` transfers of the largest size.
pub open spec fn totals_bounded(v: Seq<PersonTotal>, steps: int) -> bool {
    forall|k: int|
        0 <= k < v.len() ==> -steps * 0x8000_0000_0000_0000 <= (#[trigger] v[k]).net_cents <= steps
            * 0x8000_0000_0000_0000
}

fn find_person(led: &Vec<PersonTotal>, id: u128) -> (r: usize)
    ensures
        r == position_of(ledger_view(led@), id),
{
    let ghost view = ledger_view(led@);
    let mut i: usize = 0;
    while i < led.len()
        invariant
            i <= led@.len(),
            view == ledger_view(led@),
            forall|j: int| 0 <= j < i ==> led@[j].user.id != id,
        ensures
            i <= led@.len(),
            view == ledger_view(led@),
            forall|j: int| 0 <= j < i ==> led@[j].user.id != id,
            i < led@.len() ==> led@[i as int].user.id == id,
        decreases led.len() - i,
    {
        if led[i].user.id == id {
            break;
        }
        i = i + 1;
    }
    proof {
        lemma_position_of(view, id);
        let p = position_of(view, id);
        if i < p {
            assert(view[i as int].0.id == led@[i as int].user.id);
        }
        if p < i {
            assert(view[p].0.id == led@[p].user.id);
        }
    }
    i
}

/// Adds `d` to what stands with person `other`.
fn credit(led: &mut Vec<PersonTotal>, rows: &[BalanceRow], other: u128, d: i64, Ghost(steps): Ghost<int>)
    requires
        last_row_index(rows@, other) >= 0,
        0 <= steps < 0x4000_0000_0000_0000,
        totals_bounded(old(led)@, steps),
    ensures
        ledger_view(final(led)@) == credited(ledger_view(old(led)@), rows@, other, d as int),
        totals_bounded(final(led)@, steps + 1),
{
    let ghost before = ledger_view(led@);
    let k = find_person(led, other);
    proof {
        lemma_position_of(before, other);
        lemma_last_row_index(rows@, other);
    }
    if k < led.len() {
        assert(-steps * 0x8000_0000_0000_0000 <= led@[k as int].net_cents <= steps * 0x8000_0000_0000_0000);
        assert(steps * 0x8000_0000_0000_0000 <= 0x4000_0000_0000_0000 * 0x8000_0000_0000_0000) by (nonlinear_arith)
            requires
                0 <= steps < 0x4000_0000_0000_0000,
        ;
        let total = led[k].net_cents + d as i128;
        let user = copy_brief(&led[k].user);
        led.set(k, PersonTotal { user, net_cents: total });
        assert(ledger_view(led@) =~= before.update(k as int, (before[k as int].0, before[k as int].1 + d)));
    } else {
        let found = last_brief(rows, other);
        match found {
            Some(u) => {
                led.push(PersonTotal { user: u, net_cents: d as i128 });
                assert(ledger_view(led@) =~= before.push((brief_of(rows@[last_row_index(rows@, other)]), d as int)));
            },
            None => {
                assert(false);
            },
        }
    }
    assert forall|j: int| 0 <= j < led@.len() implies -(steps + 1) * 0x8000_0000_0000_0000 <= (
    #[trigger] led@[j]).net_cents <= (steps + 1) * 0x8000_0000_0000_0000 by {
        assert((steps + 1) * 0x8000_0000_0000_0000 == steps * 0x8000_0000_0000_0000 + 0x8000_0000_0000_0000);
        if j < old(led)@.len() {
            assert(-steps * 0x8000_0000_0000_0000 <= old(led)@[j].net_cents <= steps * 0x8000_0000_0000_0000);
        }
    }
}

/// Adds the user's moves in one group to the ledger.
fn add_group(led: &mut Vec<PersonTotal>, rows: &[BalanceRow], me: u128, Ghost(steps): Ghost<int>)
    requires
        forall|k: int| 0 <= k < rows@.len() ==> net_fits(#[trigger] rows@[k]),
        0 <= steps,
        steps + rows@.len() < 0x4000_0000_0000_0000,
        totals_bounded(old(led)@, steps),
    ensures
        ledger_view(final(led)@) == after_moves(ledger_view(old(led)@), rows@, group_moves(rows@, me)),
        totals_bounded(final(led)@, steps + rows@.len()),
{
    let ghost start = ledger_view(led@);
    let nets = nets_of(rows);
    let transfers = simplify_debts(&nets);
    let ghost plan = settlement_plan(nets_of_rows(rows@));
    let mut k: usize = 0;
    let ghost mut done: int = steps;
    proof {
        assert(plan.take(0) =~= Seq::<Transfer>::empty());
        assert(transfers@.len() <= rows@.len());
    }
    while k < transfers.len()
        invariant
            k <= transfers@.len() <= rows@.len(),
            transfers@ == plan,
            nets@ == nets_of_rows(rows@),
            forall|q: int| 0 <= q < transfers@.len() ==> (#[trigger] transfers@[q]).amount_cents > 0,
            forall|q: int|
                0 <= q < transfers@.len() ==> (exists|m: int|
                    0 <= m < nets@.len() && (#[trigger] nets@[m]).user_id == (
                    #[trigger] transfers@[q]).from) && (exists|m: int|
                    0 <= m < nets@.len() && (#[trigger] nets@[m]).user_id == transfers@[q].to),
            0 <= steps <= done <= steps + k,
            steps + rows@.len() < 0x4000_0000_0000_0000,
            totals_bounded(led@, done),
            ledger_view(led@) == after_moves(start, rows@, my_moves(plan.take(k as int), me)),
        decreases transfers.len() - k,
    {
        let t: Transfer = transfers[k];
        proof {
            assert(plan.take(k + 1).drop_last() =~= plan.take(k as int));
            assert(plan.take(k + 1).last() == t);
            let m1 = choose|m: int| 0 <= m < nets@.len() && nets@[m].user_id == transfers@[k as int].from;
            let m2 = choose|m: int| 0 <= m < nets@.len() && nets@[m].user_id == transfers@[k as int].to;
            assert(rows@[m1].user_id == t.from);
            assert(rows@[m2].user_id == t.to);
            lemma_last_row_index(rows@, t.from);
            lemma_last_row_index(rows@, t.to);
        }
        let ghost prev = my_moves(plan.take(k as int), me);
        let ghost next = my_moves(plan.take(k + 1), me);
        if t.from == me {
            credit(led, rows, t.to, -t.amount_cents, Ghost(done));
            proof {
                done = done + 1;
                let mv = (t.to, -(t.amount_cents as int));
                assert(next == prev.push(mv));
                assert(prev.push(mv).drop_last() =~= prev);
            }
        } else if t.to == me {
            credit(led, rows, t.from, t.amount_cents, Ghost(done));
            proof {
                done = done + 1;
                let mv = (t.from, t.amount_cents as int);
                assert(next == prev.push(mv));
                assert(prev.push(mv).drop_last() =~= prev);
            }
        } else {
            assert(next == prev);
        }
        k = k + 1;
    }
    proof {
        assert(plan.take(k as int) =~= plan);
        assert forall|j: int| 0 <= j < led@.len() implies -(steps + rows@.len()) * 0x8000_0000_0000_0000
            <= (#[trigger] led@[j]).net_cents <= (steps + rows@.len()) * 0x8000_0000_0000_0000 by {
            assert(done * 0x8000_0000_0000_0000 <= (steps + rows@.len()) * 0x8000_0000_0000_0000) by (nonlinear_arith)
                requires
                    done <= steps + rows@.len(),
            ;
            assert(-done * 0x8000_0000_0000_0000 <= led@[j].net_cents <= done * 0x8000_0000_0000_0000);
        }
    }
}

/// What stands between the user and each person over all the given groups.
pub fn debt_ledger(groups: &[Vec<BalanceRow>], me: u128) -> (led: Vec<PersonTotal>)
    requires
        groups_fit(groups@.map_values(|g: Vec<BalanceRow>| g@)),
        rows_count(groups@.map_values(|g: Vec<BalanceRow>| g@)) < 0x4000_0000_0000_0000,
    ensures
        ledger_view(led@) == ledger_of(groups@.map_values(|g: Vec<BalanceRow>| g@), me),
{
    let ghost gs = groups@.map_values(|g: Vec<BalanceRow>| g@);
    let mut led: Vec<PersonTotal> = Vec::new();
    let mut g: usize = 0;
    let ghost mut steps: int = 0;
    assert(ledger_view(led@) =~= Seq::<(UserBrief, int)>::empty());
    assert(gs.take(0) =~= Seq::<Seq<BalanceRow>>::empty());
    while g < groups.len()
        invariant
            g <= groups@.len(),
            gs == groups@.map_values(|g: Vec<BalanceRow>| g@),
            groups_fit(gs),
            rows_count(gs) < 0x4000_0000_0000_0000,
            steps == rows_count(gs.take(g as int)),
            0 <= steps,
            totals_bounded(led@, steps),
            ledger_view(led@) == ledger_of(gs.take(g as int), me),
        decreases groups.len() - g,
    {
        proof {
            assert(gs.take(g + 1).drop_last() =~= gs.take(g as int));
            assert(gs.take(g + 1).last() == groups@[g as int]@);
            lemma_rows_count_prefix(gs, g + 1);
            assert forall|k: int| 0 <= k < groups@[g as int]@.len() implies net_fits(
                #[trigger] groups@[g as int]@[k],
            ) by {
                assert(gs[g as int] == groups@[g as int]@);
                assert(net_fits(gs[g as int][k]));
            }
        }
        add_group(&mut led, &groups[g], me, Ghost(steps));
        proof {
            steps = steps + groups@[g as int]@.len();
        }
        g = g + 1;
    }
    assert(gs.take(g as int) =~= gs);
    led
}

proof fn lemma_rows_count_prefix(gs: Seq<Seq<BalanceRow>>, n: int)
    requires
        0 <= n <= gs.len(),
    ensures
        0 <= rows_count(gs.take(n)) <= rows_count(gs),
    decreases gs.len(),
{
    if n < gs.len() {
        assert(gs.drop_last().take(n) =~= gs.take(n));
        lemma_rows_count_prefix(gs.drop_last(), n);
    } else {
        assert(gs.take(n) =~= gs);
        lemma_rows_count_nonneg(gs);
    }
}

proof fn lemma_rows_count_nonneg(gs: Seq<Seq<BalanceRow>>)
    ensures
        rows_count(gs) >= 0,
    decreases gs.len(),
{
    if gs.len() > 0 {
        lemma_rows_count_nonneg(gs.drop_last());
    }
}

// ---------------------------------------------------------------------------
// The summary shown
// ---------------------------------------------------------------------------

/// What stands between the user and one person: positive, that person owes
/// the user; negative, the user owes them.
pub struct DebtSummary {
    pub user: UserBrief,
    pub net_cents: i64,
}

/// How large a debt is, whichever way it goes.
pub open spec fn size_of(d: DebtSummary) -> int {
    if d.net_cents < 0 {
        -d.net_cents
    } else {
        d.net_cents as int
    }
}

/// Larger debts first.
pub open spec fn by_size(s: Seq<DebtSummary>) -> bool {
    forall|a: int, b: int| 0 <= a < b < s.len() ==> size_of(#[trigger] s[a]) >= size_of(#[trigger] s[b])
}

/// The people the user is not even with, in ledger order.
pub open spec fn open_debts(led: Seq<(UserBrief, int)>) -> Seq<DebtSummary>
    decreases led.len(),
{
    if led.len() == 0 {
        Seq::empty()
    } else {
        let rest = open_debts(led.drop_last());
        let e = led.last();
        if e.1 != 0 {
            rest.push(DebtSummary { user: e.0, net_cents: e.1 as i64 })
        } else {
            rest
        }
    }
}

/// What everybody owes the user, added up.
pub open spec fn owed_total(led: Seq<(UserBrief, int)>) -> int
    decreases led.len(),
{
    if led.len() == 0 {
        0
    } else {
        owed_total(led.drop_last()) + if led.last().1 > 0 {
            led.last().1
        } else {
            0
        }
    }
}

/// What the user owes everybody, added up.
pub open spec fn owe_total(led: Seq<(UserBrief, int)>) -> int
    decreases led.len(),
{
    if led.len() == 0 {
        0
    } else {
        owe_total(led.drop_last()) + if led.last().1 < 0 {
            -led.last().1
        } else {
            0
        }
    }
}

/// Every debt and both totals fit in an `i64` (and every debt can be negated).
pub open spec fn ledger_fits(led: Seq<(UserBrief, int)>) -> bool {
    &&& forall|k: int| 0 <= k < led.len() ==> i64::MIN < (#[trigger] led[k]).1 <= i64::MAX
    &&& owed_total(led) <= i64::MAX
    &&& owe_total(led) <= i64::MAX
}

proof fn lemma_totals_grow(led: Seq<(UserBrief, int)>, n: int)
    requires
        0 <= n <= led.len(),
    ensures
        0 <= owed_total(led.take(n)) <= owed_total(led),
        0 <= owe_total(led.take(n)) <= owe_total(led),
    decreases led.len(),
{
    if n < led.len() {
        assert(led.drop_last().take(n) =~= led.take(n));
        lemma_totals_grow(led.drop_last(), n);
    } else {
        assert(led.take(n) =~= led);
        if led.len() > 0 {
            lemma_totals_grow(led.drop_last(), led.len() - 1);
            assert(led.drop_last().take(led.len() - 1) =~= led.drop_last());
        }
    }
}

/// Puts `x` after every debt at least as large and before the smaller ones.
fn insert_by_size(out: &mut Vec<DebtSummary>, x: DebtSummary)
    requires
        by_size(old(out)@),
    ensures
        by_size(final(out)@),
        final(out)@.to_multiset() == old(out)@.to_multiset().insert(x),
{
    let ghost before = out@;
    let xs: i128 = if x.net_cents < 0 {
        -(x.net_cents as i128)
    } else {
        x.net_cents as i128
    };
    let mut p: usize = 0;
    while p < out.len()
        invariant
            p <= out@.len(),
            out@ == before,
            xs == size_of(x),
            forall|j: int| 0 <= j < p ==> size_of(#[trigger] out@[j]) >= xs,
        ensures
            p <= out@.len(),
            out@ == before,
            forall|j: int| 0 <= j < p ==> size_of(#[trigger] out@[j]) >= xs,
            p < out@.len() ==> size_of(out@[p as int]) < xs,
        decreases out.len() - p,
    {
        let n = out[p].net_cents;
        let ns: i128 = if n < 0 {
            -(n as i128)
        } else {
            n as i128
        };
        if ns < xs {
            break;
        }
        p = p + 1;
    }
    let ghost gx = x;
    out.insert(p, x);
    proof {
        vstd::seq_lib::to_multiset_insert(before, p as int, gx);
        let after = out@;
        assert(after == before.insert(p as int, gx));
        assert forall|a: int, b: int| 0 <= a < b < after.len() implies size_of(#[trigger] after[a]) >= size_of(
            #[trigger] after[b],
        ) by {
            if b < p {
                assert(after[a] == before[a] && after[b] == before[b]);
            } else if b == p {
                assert(after[a] == before[a]);
            } else if a < p {
                assert(after[a] == before[a] && after[b] == before[b - 1]);
                assert(size_of(before[p as int]) < xs);
                if b - 1 > p {
                    assert(size_of(before[p as int]) >= size_of(before[b - 1]));
                }
            } else if a == p {
                assert(after[b] == before[b - 1]);
                assert(size_of(before[p as int]) < xs);
                if b - 1 > p {
                    assert(size_of(before[p as int]) >= size_of(before[b - 1]));
                }
            } else {
                assert(after[a] == before[a - 1] && after[b] == before[b - 1]);
            }
        }
    }
}

/// The dashboard's summary of debts.
pub struct DebtOverview {
    /// The people the user is not even with, larger debts first.
    pub debts: Vec<DebtSummary>,
    /// What everybody owes the user.
    pub you_are_owed_cents: i64,
    /// What the user owes everybody.
    pub you_owe_cents: i64,
    /// What the user is owed minus what they owe.
    pub net_cents: i64,
}

/// Orders the debts of a ledger, larger first, and adds them up. People the
/// user is even with are left out.
pub fn summarize_debts(led: Vec<PersonTotal>) -> (r: DebtOverview)
    requires
        ledger_fits(ledger_view(led@)),
    ensures
        r.debts@.to_multiset() == open_debts(ledger_view(led@)).to_multiset(),
        by_size(r.debts@),
        r.you_are_owed_cents == owed_total(ledger_view(led@)),
        r.you_owe_cents == owe_total(ledger_view(led@)),
        r.net_cents == r.you_are_owed_cents - r.you_owe_cents,
{
    let ghost all = ledger_view(led@);
    let ghost n = led@.len();
    assert(n == led.len());
    let mut rest = led;
    let mut out: Vec<DebtSummary> = Vec::new();
    let mut owed: i64 = 0;
    let mut owe: i64 = 0;
    let mut i: usize = 0;
    proof {
        assert(all.take(0) =~= Seq::<(UserBrief, int)>::empty());
        assert(ledger_view(rest@).skip(0) =~= all);
    }
    while rest.len() > 0
        invariant
            all.len() == n,
            n <= usize::MAX,
            ledger_fits(all),
            i + rest@.len() == n,
            ledger_view(rest@) == all.skip(i as int),
            by_size(out@),
            out@.to_multiset() == open_debts(all.take(i as int)).to_multiset(),
            owed == owed_total(all.take(i as int)),
            owe == owe_total(all.take(i as int)),
        decreases rest.len(),
    {
        let ghost before_rest = ledger_view(rest@);
        let ghost raw_rest = rest@;
        let e = rest.remove(0);
        let ghost pre = all.take(i as int);
        proof {
            assert(all.take(i + 1).drop_last() =~= pre);
            assert(before_rest[0] == (e.user, e.net_cents as int));
            assert(all[i as int] == before_rest[0]);
            assert(all.take(i + 1).last() == all[i as int]);
            assert(rest@ == raw_rest.remove(0));
            assert(ledger_view(rest@) =~= before_rest.subrange(1, before_rest.len() as int));
            assert(ledger_view(rest@) =~= all.skip(i + 1));
            lemma_totals_grow(all, i + 1);
            assert(i64::MIN < all[i as int].1 <= i64::MAX);
        }
        let net = e.net_cents as i64;
        if net > 0 {
            owed = owed + net;
        } else if net < 0 {
            owe = owe - net;
        }
        if net != 0 {
            let ghost item = DebtSummary { user: e.user, net_cents: net };
            insert_by_size(&mut out, DebtSummary { user: e.user, net_cents: net });
            proof {
                vstd::seq_lib::to_multiset_build(open_debts(pre), item);
            }
        }
        i = i + 1;
    }
    proof {
        assert(all.take(i as int) =~= all);
        lemma_totals_grow(all, n as int);
    }
    DebtOverview { debts: out, you_are_owed_cents: owed, you_owe_cents: owe, net_cents: owed - owe }
}

/// Whether every debt and both totals of a ledger fit in an `i64`.
pub fn ledger_fits_check(led: &[PersonTotal]) -> (r: bool)
    ensures
        r == ledger_fits(ledger_view(led@)),
{
    let ghost all = ledger_view(led@);
    let mut owed: i128 = 0;
    let mut owe: i128 = 0;
    let mut k: usize = 0;
    assert(all.take(0) =~= Seq::<(UserBrief, int)>::empty());
    while k < led.len()
        invariant
            k <= led@.len(),
            all == ledger_view(led@),
            forall|j: int| 0 <= j < k ==> i64::MIN < (#[trigger] all[j]).1 <= i64::MAX,
            owed == owed_total(all.take(k as int)),
            owe == owe_total(all.take(k as int)),
            0 <= owed <= i64::MAX,
            0 <= owe <= i64::MAX,
        decreases led.len() - k,
    {
        let net = led[k].net_cents;
        proof {
            assert(all.take(k + 1).drop_last() =~= all.take(k as int));
            assert(all.take(k + 1).last() == all[k as int]);
            assert(all[k as int].1 == net);
            lemma_totals_grow(all, k + 1);
        }
        if net <= i64::MIN as i128 || net > i64::MAX as i128 {
            return false;
        }
        if net > 0 {
            owed = owed + net;
        } else {
            owe = owe - net;
        }
        if owed > i64::MAX as i128 || owe > i64::MAX as i128 {
            return false;
        }
        k = k + 1;
    }
    assert(all.take(k as int) =~= all);
    true
}

/// The dashboard's debts over the user's active groups, given each group's
/// balance rows: what stands with each person, added up over the groups,
/// larger debts first. `None` when a debt or a total does not fit in an
/// `i64`.
pub fn dashboard_debts(groups: &[Vec<BalanceRow>], me: u128) -> (r: Option<DebtOverview>)
    requires
        groups_fit(groups@.map_values(|g: Vec<BalanceRow>| g@)),
        rows_count(groups@.map_values(|g: Vec<BalanceRow>| g@)) < 0x4000_0000_0000_0000,
    ensures
        r is None <==> !ledger_fits(ledger_of(groups@.map_values(|g: Vec<BalanceRow>| g@), me)),
        r matches Some(o) ==> {
            let led = ledger_of(groups@.map_values(|g: Vec<BalanceRow>| g@), me);
            &&& o.debts@.to_multiset() == open_debts(led).to_multiset()
            &&& by_size(o.debts@)
            &&& o.you_are_owed_cents == owed_total(led)
            &&& o.you_owe_cents == owe_total(led)
            &&& o.net_cents == o.you_are_owed_cents - o.you_owe_cents
        },
{
    let led = debt_ledger(groups, me);
    if !ledger_fits_check(&led) {
        return None;
    }
    Some(summarize_debts(led))
}

} // verus!
