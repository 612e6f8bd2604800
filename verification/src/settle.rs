//! Debt simplification: turning net balances into a short list of transfers
//! that settles everyone.
use vstd::prelude::*;
use crate::sums::{total_of, lemma_prefix_sum_same};

verus! {

broadcast use vstd::seq_lib::group_to_multiset_ensures;

/// Net balance of one person: positive means they are owed money, negative
/// means they owe money.
#[derive(Clone, Copy, Debug, PartialEq, Eq, Structural)]
pub struct NetBalance {
    pub user_id: u128,
    pub net_cents: i64,
}

/// A suggested payment that helps settle the balances.
#[derive(Clone, Copy, Debug, PartialEq, Eq, Structural)]
pub struct Transfer {
    pub from: u128,
    pub to: u128,
    pub amount_cents: i64,
}

/// Whether a balance belongs on the owing side (`owing`) or the owed side.
pub open spec fn on_side(x: NetBalance, owing: bool) -> bool {
    if owing {
        x.net_cents < 0
    } else {
        x.net_cents > 0
    }
}

/// What a balance amounts to on its side: the debt or the credit, as a positive number.
pub open spec fn side_amount(x: NetBalance, owing: bool) -> i64 {
    if owing {
        (-x.net_cents) as i64
    } else {
        x.net_cents
    }
}

/// The people on one side of the balances, as `(user id, cents)`, in input order.
pub open spec fn parties_of(b: Seq<NetBalance>, owing: bool) -> Seq<(u128, i64)>
    decreases b.len(),
{
    if b.len() == 0 {
        Seq::empty()
    } else {
        let rest = parties_of(b.drop_last(), owing);
        if on_side(b.last(), owing) {
            rest.push((b.last().user_id, side_amount(b.last(), owing)))
        } else {
            rest
        }
    }
}

/// `x` comes before `y` in the pairing: a larger amount, or the same amount
/// and a smaller id.
pub open spec fn party_before(x: (u128, i64), y: (u128, i64)) -> bool {
    x.1 > y.1 || (x.1 == y.1 && x.0 < y.0)
}

/// Where the largest party of `s` stands: the largest amount, on a tie the
/// smaller id (the first of identical entries).
pub open spec fn top_index(s: Seq<(u128, i64)>) -> int
    decreases s.len(),
{
    if s.len() <= 1 {
        0
    } else {
        let k = top_index(s.drop_last());
        if party_before(s.last(), s[k]) {
            s.len() - 1
        } else {
            k
        }
    }
}

/// One side after the party at `i` paid or received `a`: it leaves when
/// nothing is left to it, else it stays with what is left.
pub open spec fn after_payment(s: Seq<(u128, i64)>, i: int, a: int) -> Seq<(u128, i64)> {
    if s[i].1 - a == 0 {
        s.remove(i)
    } else {
        s.update(i, (s[i].0, (s[i].1 - a) as i64))
    }
}

/// The greedy pairing: the largest remaining debtor pays the largest
/// remaining creditor as much as both allow (ties go to the smaller id),
/// whoever is settled leaves, and the rest is paired the same way.
pub open spec fn greedy_transfers(d: Seq<(u128, i64)>, c: Seq<(u128, i64)>) -> Seq<Transfer>
    decreases d.len() + c.len(),
{
    if d.len() == 0 || c.len() == 0 {
        Seq::empty()
    } else {
        let i = top_index(d);
        let j = top_index(c);
        let a: int = if d[i].1 <= c[j].1 {
            d[i].1 as int
        } else {
            c[j].1 as int
        };
        let head = if a > 0 {
            seq![Transfer { from: d[i].0, to: c[j].0, amount_cents: a as i64 }]
        } else {
            Seq::empty()
        };
        proof {
            lemma_top_index(d);
            lemma_top_index(c);
        }
        head + greedy_transfers(after_payment(d, i, a), after_payment(c, j, a))
    }
}

/// The transfers `simplify_debts` suggests for the balances `b`.
pub open spec fn settlement_plan(b: Seq<NetBalance>) -> Seq<Transfer> {
    greedy_transfers(parties_of(b, true), parties_of(b, false))
}

/// Total that `u` pays in `ts`.
pub open spec fn sent_by(u: u128, ts: Seq<Transfer>) -> int
    decreases ts.len(),
{
    if ts.len() == 0 {
        0
    } else {
        (if ts[0].from == u {
            ts[0].amount_cents as int
        } else {
            0
        }) + sent_by(u, ts.drop_first())
    }
}

/// Total that `u` receives in `ts`.
pub open spec fn received_by(u: u128, ts: Seq<Transfer>) -> int
    decreases ts.len(),
{
    if ts.len() == 0 {
        0
    } else {
        (if ts[0].to == u {
            ts[0].amount_cents as int
        } else {
            0
        }) + received_by(u, ts.drop_first())
    }
}

pub open spec fn nets_of(b: Seq<NetBalance>) -> Seq<i64> {
    b.map_values(|x: NetBalance| x.net_cents)
}

pub open spec fn balance_ids_distinct(b: Seq<NetBalance>) -> bool {
    forall|i: int, j: int| 0 <= i < j < b.len() ==> b[i].user_id != b[j].user_id
}

/// Sum of the amounts of `(user id, cents)` entries.
pub open spec fn party_total(s: Seq<(u128, i64)>) -> int
    decreases s.len(),
{
    if s.len() == 0 {
        0
    } else {
        s[0].1 + party_total(s.drop_first())
    }
}

pub open spec fn all_positive(s: Seq<(u128, i64)>) -> bool {
    forall|k: int| 0 <= k < s.len() ==> (#[trigger] s[k]).1 > 0
}

/// Ids are distinct within each side and no id is on both sides.
pub open spec fn ids_apart(d: Seq<(u128, i64)>, c: Seq<(u128, i64)>) -> bool {
    &&& forall|i: int, j: int| 0 <= i < j < d.len() ==> d[i].0 != d[j].0
    &&& forall|i: int, j: int| 0 <= i < j < c.len() ==> c[i].0 != c[j].0
    &&& forall|i: int, j: int| 0 <= i < d.len() && 0 <= j < c.len() ==> d[i].0 != c[j].0
}

pub open spec fn has_id(s: Seq<(u128, i64)>, u: u128) -> bool {
    exists|m: int| 0 <= m < s.len() && (#[trigger] s[m]).0 == u
}

// ---------------------------------------------------------------------------
// Facts about transfer totals
// ---------------------------------------------------------------------------

proof fn lemma_flow_cons(t: Transfer, rest: Seq<Transfer>, u: u128)
    ensures
        sent_by(u, seq![t] + rest) == (if t.from == u {
            t.amount_cents as int
        } else {
            0
        }) + sent_by(u, rest),
        received_by(u, seq![t] + rest) == (if t.to == u {
            t.amount_cents as int
        } else {
            0
        }) + received_by(u, rest),
{
    assert((seq![t] + rest).drop_first() =~= rest);
    assert((seq![t] + rest)[0] == t);
}

proof fn lemma_sent_absent(u: u128, ts: Seq<Transfer>)
    requires
        forall|k: int| 0 <= k < ts.len() ==> (#[trigger] ts[k]).from != u,
    ensures
        sent_by(u, ts) == 0,
    decreases ts.len(),
{
    if ts.len() > 0 {
        assert forall|k: int| 0 <= k < ts.drop_first().len() implies (
        #[trigger] ts.drop_first()[k]).from != u by {
            assert(ts.drop_first()[k] == ts[k + 1]);
        }
        lemma_sent_absent(u, ts.drop_first());
    }
}

proof fn lemma_received_absent(u: u128, ts: Seq<Transfer>)
    requires
        forall|k: int| 0 <= k < ts.len() ==> (#[trigger] ts[k]).to != u,
    ensures
        received_by(u, ts) == 0,
    decreases ts.len(),
{
    if ts.len() > 0 {
        assert forall|k: int| 0 <= k < ts.drop_first().len() implies (
        #[trigger] ts.drop_first()[k]).to != u by {
            assert(ts.drop_first()[k] == ts[k + 1]);
        }
        lemma_received_absent(u, ts.drop_first());
    }
}

// ---------------------------------------------------------------------------
// Facts about party totals
// ---------------------------------------------------------------------------

proof fn lemma_party_total_push(s: Seq<(u128, i64)>, x: (u128, i64))
    ensures
        party_total(s.push(x)) == party_total(s) + x.1,
    decreases s.len(),
{
    if s.len() > 0 {
        assert(s.push(x).drop_first() =~= s.drop_first().push(x));
        assert(s.push(x)[0] == s[0]);
        lemma_party_total_push(s.drop_first(), x);
        assert(party_total(s.push(x)) == s[0].1 + party_total(s.push(x).drop_first()));
        assert(party_total(s) == s[0].1 + party_total(s.drop_first()));
    } else {
        assert(s.push(x).drop_first() =~= Seq::<(u128, i64)>::empty());
        assert(s.push(x)[0] == x);
        assert(party_total(Seq::<(u128, i64)>::empty()) == 0);
        assert(party_total(s.push(x)) == x.1 + party_total(s.push(x).drop_first()));
    }
}

proof fn lemma_party_total_remove(s: Seq<(u128, i64)>, k: int)
    requires
        0 <= k < s.len(),
    ensures
        party_total(s) == s[k].1 + party_total(s.remove(k)),
    decreases k,
{
    if k == 0 {
        assert(s.remove(0) =~= s.drop_first());
    } else {
        assert(s.remove(k).drop_first() =~= s.drop_first().remove(k - 1));
        assert(s.remove(k)[0] == s[0]);
        lemma_party_total_remove(s.drop_first(), k - 1);
    }
}

proof fn lemma_party_total_positive(s: Seq<(u128, i64)>)
    requires
        all_positive(s),
    ensures
        party_total(s) >= 0,
        s.len() > 0 ==> party_total(s) > 0,
    decreases s.len(),
{
    if s.len() > 0 {
        assert(all_positive(s.drop_first())) by {
            assert forall|k: int| 0 <= k < s.drop_first().len() implies (
            #[trigger] s.drop_first()[k]).1 > 0 by {
                assert(s.drop_first()[k] == s[k + 1]);
            }
        }
        lemma_party_total_positive(s.drop_first());
    }
}

// ---------------------------------------------------------------------------
// Facts about the two sides of the balances
// ---------------------------------------------------------------------------

proof fn lemma_parties(b: Seq<NetBalance>, owing: bool)
    requires
        forall|m: int| 0 <= m < b.len() ==> (#[trigger] b[m]).net_cents != i64::MIN,
    ensures
        forall|k: int|
            0 <= k < parties_of(b, owing).len() ==> exists|m: int|
                0 <= m < b.len() && (#[trigger] b[m]).user_id == (
                #[trigger] parties_of(b, owing)[k]).0 && on_side(b[m], owing)
                    && parties_of(b, owing)[k].1 == side_amount(b[m], owing),
        forall|m: int|
            0 <= m < b.len() && on_side(#[trigger] b[m], owing) ==> parties_of(b, owing).contains(
                (b[m].user_id, side_amount(b[m], owing)),
            ),
        balance_ids_distinct(b) ==> forall|i: int, j: int|
            0 <= i < j < parties_of(b, owing).len() ==> parties_of(b, owing)[i].0 != parties_of(
                b,
                owing,
            )[j].0,
        all_positive(parties_of(b, owing)),
        parties_of(b, owing).len() <= b.len(),
    decreases b.len(),
{
    if b.len() > 0 {
        let b1 = b.drop_last();
        lemma_parties(b1, owing);
        let p1 = parties_of(b1, owing);
        let p = parties_of(b, owing);
        assert forall|k: int| 0 <= k < p.len() implies exists|m: int|
            0 <= m < b.len() && (#[trigger] b[m]).user_id == (#[trigger] p[k]).0 && on_side(
                b[m],
                owing,
            ) && p[k].1 == side_amount(b[m], owing) by {
            if k < p1.len() {
                assert(p[k] == p1[k]);
                let m = choose|m: int|
                    0 <= m < b1.len() && (#[trigger] b1[m]).user_id == p1[k].0 && on_side(
                        b1[m],
                        owing,
                    ) && p1[k].1 == side_amount(b1[m], owing);
                assert(b[m] == b1[m]);
            } else {
                assert(b[b.len() - 1] == b.last());
            }
        }
        assert forall|m: int| 0 <= m < b.len() && on_side(#[trigger] b[m], owing) implies p.contains(
            (b[m].user_id, side_amount(b[m], owing)),
        ) by {
            if m < b.len() - 1 {
                assert(b1[m] == b[m]);
                assert(p1.contains((b1[m].user_id, side_amount(b1[m], owing))));
                let k = choose|k: int| 0 <= k < p1.len() && p1[k] == (b1[m].user_id, side_amount(b1[m], owing));
                assert(p[k] == p1[k]);
            } else {
                assert(p[p.len() - 1] == (b.last().user_id, side_amount(b.last(), owing)));
            }
        }
        if balance_ids_distinct(b) {
            assert(balance_ids_distinct(b1));
            assert forall|i: int, j: int| 0 <= i < j < p.len() implies p[i].0 != p[j].0 by {
                if j == p1.len() {
                    assert(p[i] == p1[i]);
                    let m = choose|m: int|
                        0 <= m < b1.len() && (#[trigger] b1[m]).user_id == p1[i].0 && on_side(
                            b1[m],
                            owing,
                        ) && p1[i].1 == side_amount(b1[m], owing);
                    assert(b[m] == b1[m]);
                    assert(b[m].user_id != b[b.len() - 1].user_id);
                } else {
                    assert(p[i] == p1[i]);
                    assert(p[j] == p1[j]);
                }
            }
        }
        assert(all_positive(p)) by {
            assert forall|k: int| 0 <= k < p.len() implies (#[trigger] p[k]).1 > 0 by {
                if k < p1.len() {
                    assert(p[k] == p1[k]);
                }
            }
        }
    }
}

proof fn lemma_parties_totals(b: Seq<NetBalance>)
    requires
        forall|m: int| 0 <= m < b.len() ==> (#[trigger] b[m]).net_cents != i64::MIN,
    ensures
        party_total(parties_of(b, false)) - party_total(parties_of(b, true)) == total_of(nets_of(b)),
        parties_of(b, true).len() + parties_of(b, false).len() <= b.len(),
    decreases b.len(),
{
    if b.len() > 0 {
        let b1 = b.drop_last();
        lemma_parties_totals(b1);
        let x = b.last();
        lemma_party_total_push(parties_of(b1, true), (x.user_id, side_amount(x, true)));
        lemma_party_total_push(parties_of(b1, false), (x.user_id, side_amount(x, false)));
        lemma_prefix_sum_same(nets_of(b), nets_of(b1), b1.len() as int);
        assert(nets_of(b)[b.len() - 1] == x.net_cents);
    }
}

// ---------------------------------------------------------------------------
// Facts about the largest party and one payment
// ---------------------------------------------------------------------------

/// Parties compare as a total order (larger amount first, then smaller id).
pub open spec fn party_leq(x: (u128, i64), y: (u128, i64)) -> bool {
    x.1 > y.1 || (x.1 == y.1 && x.0 <= y.0)
}

pub proof fn lemma_top_index(s: Seq<(u128, i64)>)
    ensures
        s.len() > 0 ==> 0 <= top_index(s) < s.len(),
        s.len() > 0 ==> forall|m: int| 0 <= m < s.len() ==> party_leq(s[top_index(s)], #[trigger] s[m]),
    decreases s.len(),
{
    if s.len() > 1 {
        let t = s.drop_last();
        lemma_top_index(t);
        let k = top_index(t);
        assert(s[k] == t[k]);
        assert forall|m: int| 0 <= m < s.len() implies party_leq(s[top_index(s)], #[trigger] s[m]) by {
            if m < s.len() - 1 {
                assert(s[m] == t[m]);
            }
        }
    }
}

/// Where entry `k` of a side after a payment at `i` came from.
pub open spec fn came_from(k: int, i: int, removed: bool) -> int {
    if removed && k >= i {
        k + 1
    } else {
        k
    }
}

proof fn lemma_after_payment(s: Seq<(u128, i64)>, i: int, a: int)
    requires
        all_positive(s),
        0 <= i < s.len(),
        0 < a <= s[i].1,
    ensures
        all_positive(after_payment(s, i, a)),
        after_payment(s, i, a).len() == s.len() - (if s[i].1 == a { 1int } else { 0 }),
        party_total(after_payment(s, i, a)) == party_total(s) - a,
        forall|k: int|
            0 <= k < after_payment(s, i, a).len() ==> (#[trigger] after_payment(s, i, a)[k]).0
                == s[came_from(k, i, s[i].1 == a)].0 && 0 <= came_from(k, i, s[i].1 == a) < s.len(),
        forall|k: int|
            0 <= k < after_payment(s, i, a).len() && came_from(k, i, s[i].1 == a) != i ==> (
            #[trigger] after_payment(s, i, a)[k]) == s[came_from(k, i, s[i].1 == a)],
        s[i].1 != a ==> after_payment(s, i, a)[i] == (s[i].0, (s[i].1 - a) as i64),
        after_payment(s, i, a).to_multiset() == (if s[i].1 == a {
            s.to_multiset().remove(s[i])
        } else {
            s.to_multiset().insert((s[i].0, (s[i].1 - a) as i64)).remove(s[i])
        }),
{
    let s2 = after_payment(s, i, a);
    lemma_party_total_remove(s, i);
    if s[i].1 == a {
        vstd::seq_lib::to_multiset_remove(s, i);
        assert forall|k: int| 0 <= k < s2.len() implies (#[trigger] s2[k]).1 > 0 by {
            assert(s2[k] == s[came_from(k, i, true)]);
        }
    } else {
        let v = (s[i].0, (s[i].1 - a) as i64);
        vstd::seq_lib::to_multiset_update(s, i, v);
        lemma_party_total_remove(s2, i);
        assert(s2.remove(i) =~= s.remove(i));
        assert forall|k: int| 0 <= k < s2.len() implies (#[trigger] s2[k]).1 > 0 by {
            if k != i {
                assert(s2[k] == s[k]);
            }
        }
    }
}

// ---------------------------------------------------------------------------
// Facts about the greedy pairing
// ---------------------------------------------------------------------------

proof fn lemma_greedy_step(d: Seq<(u128, i64)>, c: Seq<(u128, i64)>)
    requires
        all_positive(d),
        all_positive(c),
        d.len() > 0,
        c.len() > 0,
    ensures
        ({
            let i = top_index(d);
            let j = top_index(c);
            let a: int = if d[i].1 <= c[j].1 { d[i].1 as int } else { c[j].1 as int };
            &&& 0 <= i < d.len()
            &&& 0 <= j < c.len()
            &&& 0 < a
            &&& a <= d[i].1
            &&& a <= c[j].1
            &&& (a == d[i].1 || a == c[j].1)
            &&& greedy_transfers(d, c) == seq![Transfer { from: d[i].0, to: c[j].0, amount_cents: a as i64 }]
                + greedy_transfers(after_payment(d, i, a), after_payment(c, j, a))
        }),
{
    lemma_top_index(d);
    lemma_top_index(c);
}

proof fn lemma_greedy_shape(d: Seq<(u128, i64)>, c: Seq<(u128, i64)>)
    requires
        all_positive(d),
        all_positive(c),
    ensures
        (d.len() == 0 || c.len() == 0) ==> greedy_transfers(d, c).len() == 0,
        (d.len() > 0 && c.len() > 0) ==> greedy_transfers(d, c).len() <= d.len() + c.len() - 1,
        forall|k: int|
            0 <= k < greedy_transfers(d, c).len() ==> (#[trigger] greedy_transfers(d, c)[k]).amount_cents
                > 0 && has_id(d, greedy_transfers(d, c)[k].from) && has_id(
                c,
                greedy_transfers(d, c)[k].to,
            ),
    decreases d.len() + c.len(),
{
    if d.len() > 0 && c.len() > 0 {
        lemma_greedy_step(d, c);
        let i = top_index(d);
        let j = top_index(c);
        let a: int = if d[i].1 <= c[j].1 { d[i].1 as int } else { c[j].1 as int };
        let d2 = after_payment(d, i, a);
        let c2 = after_payment(c, j, a);
        lemma_after_payment(d, i, a);
        lemma_after_payment(c, j, a);
        lemma_greedy_shape(d2, c2);
        let t = Transfer { from: d[i].0, to: c[j].0, amount_cents: a as i64 };
        let rest = greedy_transfers(d2, c2);
        let g = greedy_transfers(d, c);
        assert forall|k: int| 0 <= k < g.len() implies (#[trigger] g[k]).amount_cents > 0 && has_id(
            d,
            g[k].from,
        ) && has_id(c, g[k].to) by {
            if k == 0 {
                assert(g[0] == t);
                assert(d[i].0 == g[k].from);
                assert(c[j].0 == g[k].to);
            } else {
                assert(g[k] == rest[k - 1]);
                let m = choose|m: int| 0 <= m < d2.len() && (#[trigger] d2[m]).0 == rest[k - 1].from;
                assert(d2[m].0 == d[came_from(m, i, d[i].1 == a)].0);
                let m2 = choose|m: int| 0 <= m < c2.len() && (#[trigger] c2[m]).0 == rest[k - 1].to;
                assert(c2[m2].0 == c[came_from(m2, j, c[j].1 == a)].0);
            }
        }
    }
}

proof fn lemma_not_in_rest(s: Seq<(u128, i64)>, u: u128, ts: Seq<Transfer>, sending: bool)
    requires
        forall|m: int| 0 <= m < s.len() ==> (#[trigger] s[m]).0 != u,
        sending ==> forall|k: int| 0 <= k < ts.len() ==> has_id(s, (#[trigger] ts[k]).from),
        !sending ==> forall|k: int| 0 <= k < ts.len() ==> has_id(s, (#[trigger] ts[k]).to),
    ensures
        sending ==> sent_by(u, ts) == 0,
        !sending ==> received_by(u, ts) == 0,
{
    if sending {
        assert forall|k: int| 0 <= k < ts.len() implies (#[trigger] ts[k]).from != u by {
            assert(has_id(s, ts[k].from));
        }
        lemma_sent_absent(u, ts);
    } else {
        assert forall|k: int| 0 <= k < ts.len() implies (#[trigger] ts[k]).to != u by {
            assert(has_id(s, ts[k].to));
        }
        lemma_received_absent(u, ts);
    }
}

/// When both sides add up to the same total, the greedy pairing settles
/// every debtor and every creditor exactly.
proof fn lemma_greedy_settles(d: Seq<(u128, i64)>, c: Seq<(u128, i64)>)
    requires
        all_positive(d),
        all_positive(c),
        ids_apart(d, c),
        party_total(d) == party_total(c),
    ensures
        forall|m: int|
            0 <= m < d.len() ==> sent_by((#[trigger] d[m]).0, greedy_transfers(d, c)) == d[m].1
                && received_by(d[m].0, greedy_transfers(d, c)) == 0,
        forall|m: int|
            0 <= m < c.len() ==> received_by((#[trigger] c[m]).0, greedy_transfers(d, c)) == c[m].1
                && sent_by(c[m].0, greedy_transfers(d, c)) == 0,
    decreases d.len() + c.len(),
{
    lemma_party_total_positive(d);
    lemma_party_total_positive(c);
    if d.len() > 0 && c.len() > 0 {
        lemma_greedy_step(d, c);
        let i = top_index(d);
        let j = top_index(c);
        let a: int = if d[i].1 <= c[j].1 { d[i].1 as int } else { c[j].1 as int };
        let dr = d[i].1 == a;
        let cr = c[j].1 == a;
        let d2 = after_payment(d, i, a);
        let c2 = after_payment(c, j, a);
        lemma_after_payment(d, i, a);
        lemma_after_payment(c, j, a);
        assert(ids_apart(d2, c2)) by {
            assert forall|x: int, y: int| 0 <= x < y < d2.len() implies d2[x].0 != d2[y].0 by {
                assert(d2[x].0 == d[came_from(x, i, dr)].0);
                assert(d2[y].0 == d[came_from(y, i, dr)].0);
            }
            assert forall|x: int, y: int| 0 <= x < y < c2.len() implies c2[x].0 != c2[y].0 by {
                assert(c2[x].0 == c[came_from(x, j, cr)].0);
                assert(c2[y].0 == c[came_from(y, j, cr)].0);
            }
            assert forall|x: int, y: int| 0 <= x < d2.len() && 0 <= y < c2.len() implies d2[x].0
                != c2[y].0 by {
                assert(d2[x].0 == d[came_from(x, i, dr)].0);
                assert(c2[y].0 == c[came_from(y, j, cr)].0);
            }
        }
        lemma_greedy_settles(d2, c2);
        lemma_greedy_shape(d2, c2);
        let t = Transfer { from: d[i].0, to: c[j].0, amount_cents: a as i64 };
        let rest = greedy_transfers(d2, c2);
        let g = greedy_transfers(d, c);
        assert forall|m: int| 0 <= m < d.len() implies sent_by((#[trigger] d[m]).0, g) == d[m].1
            && received_by(d[m].0, g) == 0 by {
            lemma_flow_cons(t, rest, d[m].0);
            assert forall|y: int| 0 <= y < c2.len() implies (#[trigger] c2[y]).0 != d[m].0 by {
                assert(c2[y].0 == c[came_from(y, j, cr)].0);
            }
            lemma_not_in_rest(c2, d[m].0, rest, false);
            assert(c[j].0 != d[m].0);
            if m == i {
                if dr {
                    assert forall|y: int| 0 <= y < d2.len() implies (#[trigger] d2[y]).0 != d[m].0 by {
                        assert(d2[y].0 == d[came_from(y, i, dr)].0);
                    }
                    lemma_not_in_rest(d2, d[m].0, rest, true);
                } else {
                    assert(d2[i] == (d[i].0, (d[i].1 - a) as i64));
                }
            } else {
                let k = if dr && m > i { m - 1 } else { m };
                assert(came_from(k, i, dr) == m);
                assert(d2[k] == d[m]);
                assert(d[i].0 != d[m].0);
            }
        }
        assert forall|m: int| 0 <= m < c.len() implies received_by((#[trigger] c[m]).0, g) == c[m].1
            && sent_by(c[m].0, g) == 0 by {
            lemma_flow_cons(t, rest, c[m].0);
            assert forall|y: int| 0 <= y < d2.len() implies (#[trigger] d2[y]).0 != c[m].0 by {
                assert(d2[y].0 == d[came_from(y, i, dr)].0);
            }
            lemma_not_in_rest(d2, c[m].0, rest, true);
            assert(d[i].0 != c[m].0);
            if m == j {
                if cr {
                    assert forall|y: int| 0 <= y < c2.len() implies (#[trigger] c2[y]).0 != c[m].0 by {
                        assert(c2[y].0 == c[came_from(y, j, cr)].0);
                    }
                    lemma_not_in_rest(c2, c[m].0, rest, false);
                } else {
                    assert(c2[j] == (c[j].0, (c[j].1 - a) as i64));
                }
            } else {
                let k = if cr && m > j { m - 1 } else { m };
                assert(came_from(k, j, cr) == m);
                assert(c2[k] == c[m]);
                assert(c[j].0 != c[m].0);
            }
        }
    }
}


// ---------------------------------------------------------------------------
// The plan does not depend on the order of the balances
// ---------------------------------------------------------------------------

/// The balance a party stands for on its side.
pub open spec fn balance_for(x: (u128, i64), owing: bool) -> NetBalance {
    NetBalance { user_id: x.0, net_cents: if owing { (-x.1) as i64 } else { x.1 } }
}

proof fn lemma_parties_count(b: Seq<NetBalance>, owing: bool, x: (u128, i64))
    requires
        forall|m: int| 0 <= m < b.len() ==> (#[trigger] b[m]).net_cents != i64::MIN,
    ensures
        parties_of(b, owing).to_multiset().count(x) == (if x.1 > 0 {
            b.to_multiset().count(balance_for(x, owing))
        } else {
            0
        }),
    decreases b.len(),
{
    broadcast use vstd::multiset::group_multiset_axioms;

    if b.len() == 0 {
        assert(b.to_multiset() =~= vstd::multiset::Multiset::empty());
        assert(parties_of(b, owing).to_multiset() =~= vstd::multiset::Multiset::empty());
    } else {
        let b1 = b.drop_last();
        let y = b.last();
        lemma_parties_count(b1, owing, x);
        assert(b =~= b1.push(y));
        vstd::seq_lib::to_multiset_build(b1, y);
        let p1 = parties_of(b1, owing);
        if on_side(y, owing) {
            let q = (y.user_id, side_amount(y, owing));
            vstd::seq_lib::to_multiset_build(p1, q);
            assert((q == x) <==> (x.1 > 0 && y == balance_for(x, owing)));
        } else {
            assert(x.1 > 0 ==> y != balance_for(x, owing));
        }
    }
}

/// Sides with the same entries, in whatever order, get the same pairing.
proof fn lemma_greedy_reordered(
    d: Seq<(u128, i64)>,
    c: Seq<(u128, i64)>,
    e: Seq<(u128, i64)>,
    f: Seq<(u128, i64)>,
)
    requires
        all_positive(d),
        all_positive(c),
        all_positive(e),
        all_positive(f),
        d.to_multiset() == e.to_multiset(),
        c.to_multiset() == f.to_multiset(),
    ensures
        greedy_transfers(d, c) == greedy_transfers(e, f),
    decreases d.len() + c.len(),
{
    vstd::seq_lib::to_multiset_len(d);
    vstd::seq_lib::to_multiset_len(c);
    vstd::seq_lib::to_multiset_len(e);
    vstd::seq_lib::to_multiset_len(f);
    if d.len() > 0 && c.len() > 0 {
        lemma_greedy_step(d, c);
        lemma_greedy_step(e, f);
        lemma_top_index(d);
        lemma_top_index(c);
        lemma_top_index(e);
        lemma_top_index(f);
        let i = top_index(d);
        let j = top_index(c);
        let i2 = top_index(e);
        let j2 = top_index(f);
        lemma_same_top(d, e, i, i2);
        lemma_same_top(c, f, j, j2);
        let a: int = if d[i].1 <= c[j].1 { d[i].1 as int } else { c[j].1 as int };
        lemma_after_payment(d, i, a);
        lemma_after_payment(c, j, a);
        lemma_after_payment(e, i2, a);
        lemma_after_payment(f, j2, a);
        lemma_greedy_reordered(after_payment(d, i, a), after_payment(c, j, a), after_payment(e, i2, a), after_payment(f, j2, a));
    }
}

/// Two orderings of the same entries have the same largest entry.
proof fn lemma_same_top(d: Seq<(u128, i64)>, e: Seq<(u128, i64)>, i: int, i2: int)
    requires
        d.to_multiset() == e.to_multiset(),
        0 <= i < d.len(),
        0 <= i2 < e.len(),
        forall|m: int| 0 <= m < d.len() ==> party_leq(d[i], #[trigger] d[m]),
        forall|m: int| 0 <= m < e.len() ==> party_leq(e[i2], #[trigger] e[m]),
    ensures
        d[i] == e[i2],
{
    vstd::seq_lib::to_multiset_contains(d, e[i2]);
    vstd::seq_lib::to_multiset_contains(e, e[i2]);
    vstd::seq_lib::to_multiset_contains(d, d[i]);
    vstd::seq_lib::to_multiset_contains(e, d[i]);
    assert(e.contains(e[i2]));
    assert(d.contains(d[i]));
    let m = choose|m: int| 0 <= m < d.len() && d[m] == e[i2];
    let m2 = choose|m2: int| 0 <= m2 < e.len() && e[m2] == d[i];
    assert(party_leq(d[i], d[m]));
    assert(party_leq(e[i2], e[m2]));
}

/// The plan does not depend on the order of the balances: the same balances
/// in another order get the same transfers.
pub proof fn law_plan_ignores_order(b: Seq<NetBalance>, p: Seq<NetBalance>)
    requires
        b.to_multiset() == p.to_multiset(),
        forall|m: int| 0 <= m < b.len() ==> (#[trigger] b[m]).net_cents != i64::MIN,
    ensures
        settlement_plan(b) == settlement_plan(p),
{
    assert forall|m: int| 0 <= m < p.len() implies (#[trigger] p[m]).net_cents != i64::MIN by {
        vstd::seq_lib::to_multiset_contains(p, p[m]);
        vstd::seq_lib::to_multiset_contains(b, p[m]);
        assert(p.contains(p[m]));
        let k = choose|k: int| 0 <= k < b.len() && b[k] == p[m];
    }
    assert forall|x: (u128, i64)| #[trigger] parties_of(b, true).to_multiset().count(x) == parties_of(
        p,
        true,
    ).to_multiset().count(x) by {
        lemma_parties_count(b, true, x);
        lemma_parties_count(p, true, x);
    }
    assert forall|x: (u128, i64)| #[trigger] parties_of(b, false).to_multiset().count(x) == parties_of(
        p,
        false,
    ).to_multiset().count(x) by {
        lemma_parties_count(b, false, x);
        lemma_parties_count(p, false, x);
    }
    assert(parties_of(b, true).to_multiset() =~= parties_of(p, true).to_multiset());
    assert(parties_of(b, false).to_multiset() =~= parties_of(p, false).to_multiset());
    lemma_parties(b, true);
    lemma_parties(b, false);
    lemma_parties(p, true);
    lemma_parties(p, false);
    lemma_greedy_reordered(parties_of(b, true), parties_of(b, false), parties_of(p, true), parties_of(p, false));
}

} // verus!

verus! {

/// Index of the largest party of `v` (see `top_index`).
fn top_of(v: &Vec<(u128, i64)>) -> (r: usize)
    requires
        v@.len() > 0,
    ensures
        r == top_index(v@),
{
    let mut best: usize = 0;
    let mut k: usize = 1;
    assert(v@.take(1).len() == 1);
    while k < v.len()
        invariant
            1 <= k <= v@.len(),
            best < k,
            best == top_index(v@.take(k as int)),
        decreases v.len() - k,
    {
        let ghost t = v@.take(k + 1);
        assert(t.drop_last() =~= v@.take(k as int));
        assert(t[best as int] == v@[best as int]);
        assert(t.last() == v@[k as int]);
        let (id, amount) = v[k];
        let (bid, bamount) = v[best];
        if amount > bamount || (amount == bamount && id < bid) {
            best = k;
        }
        k = k + 1;
    }
    assert(v@.take(k as int) =~= v@);
    best
}

/// Computes a short list of transfers that settles all the balances.
///
/// Greedy strategy: the largest remaining debtor is paired with the largest
/// remaining creditor (on a tie, the smaller id), again and again. For N
/// people it produces at most N-1 transfers, far below the N·(N-1)/2 that
/// paying debt by debt would take.
pub fn simplify_debts(balances: &[NetBalance]) -> (transfers: Vec<Transfer>)
    requires
        forall|m: int| 0 <= m < balances@.len() ==> (#[trigger] balances@[m]).net_cents != i64::MIN,
    ensures
        transfers@ == settlement_plan(balances@),
        balances@.len() == 0 ==> transfers@.len() == 0,
        balances@.len() > 0 ==> transfers@.len() <= balances@.len() - 1,
        forall|k: int|
            0 <= k < transfers@.len() ==> (#[trigger] transfers@[k]).amount_cents > 0 && (exists|m: int|
                0 <= m < balances@.len() && (#[trigger] balances@[m]).user_id == transfers@[k].from
                    && balances@[m].net_cents < 0) && (exists|m: int|
                0 <= m < balances@.len() && (#[trigger] balances@[m]).user_id == transfers@[k].to
                    && balances@[m].net_cents > 0),
        (balance_ids_distinct(balances@) && total_of(nets_of(balances@)) == 0) ==> forall|m: int|
            0 <= m < balances@.len() ==> (#[trigger] balances@[m]).net_cents + sent_by(
                balances@[m].user_id,
                transfers@,
            ) - received_by(balances@[m].user_id, transfers@) == 0,
{
    let ghost b = balances@;
    let mut debtors: Vec<(u128, i64)> = Vec::new();
    let mut creditors: Vec<(u128, i64)> = Vec::new();
    let mut k: usize = 0;
    while k < balances.len()
        invariant
            b == balances@,
            k <= b.len(),
            forall|m: int| 0 <= m < b.len() ==> (#[trigger] b[m]).net_cents != i64::MIN,
            debtors@ == parties_of(b.take(k as int), true),
            creditors@ == parties_of(b.take(k as int), false),
        decreases b.len() - k,
    {
        let x = balances[k];
        assert(b.take(k + 1).drop_last() =~= b.take(k as int));
        assert(b.take(k + 1).last() == x);
        if x.net_cents < 0 {
            debtors.push((x.user_id, -x.net_cents));
        }
        if x.net_cents > 0 {
            creditors.push((x.user_id, x.net_cents));
        }
        k = k + 1;
    }
    assert(b.take(b.len() as int) =~= b);
    let ghost d0 = debtors@;
    let ghost c0 = creditors@;
    proof {
        lemma_parties(b, true);
        lemma_parties(b, false);
    }
    let mut transfers: Vec<Transfer> = Vec::new();
    while debtors.len() > 0 && creditors.len() > 0
        invariant
            all_positive(debtors@),
            all_positive(creditors@),
            transfers@ + greedy_transfers(debtors@, creditors@) == greedy_transfers(d0, c0),
        decreases debtors.len() + creditors.len(),
    {
        let ghost d = debtors@;
        let ghost c = creditors@;
        let ghost before = transfers@;
        proof {
            lemma_greedy_step(d, c);
        }
        let i = top_of(&debtors);
        let j = top_of(&creditors);
        let (debtor, owes) = debtors[i];
        let (creditor, due) = creditors[j];
        let amount = if owes <= due {
            owes
        } else {
            due
        };
        let t = Transfer { from: debtor, to: creditor, amount_cents: amount };
        transfers.push(t);
        proof {
            lemma_after_payment(d, i as int, amount as int);
            lemma_after_payment(c, j as int, amount as int);
        }
        if owes - amount == 0 {
            debtors.remove(i);
        } else {
            debtors.set(i, (debtor, owes - amount));
        }
        if due - amount == 0 {
            creditors.remove(j);
        } else {
            creditors.set(j, (creditor, due - amount));
        }
        proof {
            assert(debtors@ == after_payment(d, i as int, amount as int));
            assert(creditors@ == after_payment(c, j as int, amount as int));
            assert(transfers@ == before.push(t));
            assert(transfers@ + greedy_transfers(debtors@, creditors@) =~= before + greedy_transfers(d, c));
        }
    }
    proof {
        let d = debtors@;
        let c = creditors@;
        assert(greedy_transfers(d, c) =~= Seq::<Transfer>::empty());
        assert(transfers@ =~= greedy_transfers(d0, c0));
        lemma_greedy_shape(d0, c0);
        lemma_parties_totals(b);
        let g = transfers@;
        assert forall|q: int| 0 <= q < g.len() implies (#[trigger] g[q]).amount_cents > 0 && (exists|m: int|
            0 <= m < b.len() && (#[trigger] b[m]).user_id == g[q].from && b[m].net_cents < 0) && (exists|m: int|
            0 <= m < b.len() && (#[trigger] b[m]).user_id == g[q].to && b[m].net_cents > 0) by {
            assert(has_id(d0, g[q].from));
            let x = choose|x: int| 0 <= x < d0.len() && (#[trigger] d0[x]).0 == g[q].from;
            assert(exists|m: int|
                0 <= m < b.len() && (#[trigger] b[m]).user_id == (#[trigger] d0[x]).0 && on_side(b[m], true)
                    && d0[x].1 == side_amount(b[m], true));
            assert(has_id(c0, g[q].to));
            let y = choose|y: int| 0 <= y < c0.len() && (#[trigger] c0[y]).0 == g[q].to;
            assert(exists|m: int|
                0 <= m < b.len() && (#[trigger] b[m]).user_id == (#[trigger] c0[y]).0 && on_side(b[m], false)
                    && c0[y].1 == side_amount(b[m], false));
        }
        if balance_ids_distinct(b) && total_of(nets_of(b)) == 0 {
            assert(ids_apart(d0, c0)) by {
                assert forall|x: int, y: int| 0 <= x < d0.len() && 0 <= y < c0.len() implies d0[x].0
                    != c0[y].0 by {
                    assert(exists|m: int|
                        0 <= m < b.len() && (#[trigger] b[m]).user_id == (#[trigger] d0[x]).0 && on_side(b[m], true)
                            && d0[x].1 == side_amount(b[m], true));
                    let m1 = choose|m: int|
                        0 <= m < b.len() && (#[trigger] b[m]).user_id == (#[trigger] d0[x]).0 && on_side(b[m], true)
                            && d0[x].1 == side_amount(b[m], true);
                    assert(exists|m: int|
                        0 <= m < b.len() && (#[trigger] b[m]).user_id == (#[trigger] c0[y]).0 && on_side(b[m], false)
                            && c0[y].1 == side_amount(b[m], false));
                    let m2 = choose|m: int|
                        0 <= m < b.len() && (#[trigger] b[m]).user_id == (#[trigger] c0[y]).0 && on_side(b[m], false)
                            && c0[y].1 == side_amount(b[m], false);
                    if m1 < m2 {
                        assert(b[m1].user_id != b[m2].user_id);
                    } else if m2 < m1 {
                        assert(b[m2].user_id != b[m1].user_id);
                    }
                }
            }
            lemma_greedy_settles(d0, c0);
            assert forall|m: int| 0 <= m < b.len() implies (#[trigger] b[m]).net_cents + sent_by(
                b[m].user_id,
                g,
            ) - received_by(b[m].user_id, g) == 0 by {
                if b[m].net_cents < 0 {
                    assert(on_side(b[m], true));
                    assert(d0.contains((b[m].user_id, side_amount(b[m], true))));
                    let x = choose|x: int| 0 <= x < d0.len() && d0[x] == (b[m].user_id, side_amount(b[m], true));
                    assert(sent_by(d0[x].0, g) == d0[x].1);
                } else if b[m].net_cents > 0 {
                    assert(on_side(b[m], false));
                    assert(c0.contains((b[m].user_id, side_amount(b[m], false))));
                    let y = choose|y: int| 0 <= y < c0.len() && c0[y] == (b[m].user_id, side_amount(b[m], false));
                    assert(received_by(c0[y].0, g) == c0[y].1);
                } else {
                    assert forall|q: int| 0 <= q < g.len() implies (#[trigger] g[q]).from != b[m].user_id by {
                        let m2 = choose|m2: int|
                            0 <= m2 < b.len() && (#[trigger] b[m2]).user_id == g[q].from && b[m2].net_cents < 0;
                        if m < m2 {
                            assert(b[m].user_id != b[m2].user_id);
                        } else if m2 < m {
                            assert(b[m2].user_id != b[m].user_id);
                        }
                    }
                    assert forall|q: int| 0 <= q < g.len() implies (#[trigger] g[q]).to != b[m].user_id by {
                        let m2 = choose|m2: int|
                            0 <= m2 < b.len() && (#[trigger] b[m2]).user_id == g[q].to && b[m2].net_cents > 0;
                        if m < m2 {
                            assert(b[m].user_id != b[m2].user_id);
                        } else if m2 < m {
                            assert(b[m2].user_id != b[m].user_id);
                        }
                    }
                    lemma_sent_absent(b[m].user_id, g);
                    lemma_received_absent(b[m].user_id, g);
                }
            }
        }
    }
    transfers
}

} // verus!
