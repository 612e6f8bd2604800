//! Splitting expenses between participants and simplifying debts.
//!
//! All arithmetic is on integers (cents). The split uses the *largest
//! remainder* method: every participant gets the whole part of their
//! proportional share, and the cents left over go to those with the largest
//! fractional remainder. The parts therefore always add up to the total of the
//! expense: no cent is lost or invented.
use vstd::prelude::*;
use vstd::arithmetic::div_mod::*;
use vstd::arithmetic::mul::*;
use vstd::relations::*;
use crate::order::{remainder_leq, lemma_remainder_leq_total, sort_remainders};
use crate::sums::{prefix_sum, total_of, all_nonnegative, lemma_prefix_sum_nonneg, lemma_prefix_sum_update};
use crate::text::{push_str, push_char, push_signed, same_text, string_from, decimal, signed_decimal};

verus! {

broadcast use vstd::seq_lib::group_to_multiset_ensures;

/// Supported ways of dividing an expense.
#[derive(Clone, Copy, Debug, PartialEq, Eq, Structural)]
pub enum SplitType {
    /// Equal parts between all participants.
    Equal,
    /// Each participant pays an exact amount in cents.
    Exact,
    /// Percentages in basis points (10000 = 100 %).
    Percentage,
    /// Proportional parts (two parts for one, one for another).
    Shares,
}

impl SplitType {
    /// The wire name of the split type.
    pub open spec fn name(self) -> Seq<char> {
        match self {
            SplitType::Equal => "equal"@,
            SplitType::Exact => "exact"@,
            SplitType::Percentage => "percentage"@,
            SplitType::Shares => "shares"@,
        }
    }

    pub fn as_str(self) -> (s: &'static str)
        ensures
            s@ == self.name(),
    {
        match self {
            SplitType::Equal => "equal",
            SplitType::Exact => "exact",
            SplitType::Percentage => "percentage",
            SplitType::Shares => "shares",
        }
    }

    /// Reads a split type from its wire name.
    pub fn parse(value: &str) -> (r: Result<Self, SplitError>)
        ensures
            r matches Ok(t) ==> t.name() == value@,
            r matches Err(e) ==> e == SplitError::UnknownSplitType(e->UnknownSplitType_0) && e->UnknownSplitType_0@ == value@,
            r is Ok <==> (value@ == "equal"@ || value@ == "exact"@ || value@ == "percentage"@ || value@ == "shares"@),
    {
        if same_text(value, "equal") {
            Ok(SplitType::Equal)
        } else if same_text(value, "exact") {
            Ok(SplitType::Exact)
        } else if same_text(value, "percentage") {
            Ok(SplitType::Percentage)
        } else if same_text(value, "shares") {
            Ok(SplitType::Shares)
        } else {
            Err(SplitError::UnknownSplitType(string_from(value)))
        }
    }
}

/// Why a split was refused.
#[derive(Clone, Debug, PartialEq, Eq)]
pub enum SplitError {
    UnknownSplitType(String),
    NoParticipants,
    NonPositiveAmount,
    NegativeValue,
    /// The exact amounts do not add up to the expense total.
    ExactMismatch { expected: i64, got: i64 },
    /// The percentages do not add up to 100 %.
    PercentageMismatch { got: i64 },
    /// Every participant has zero parts.
    ZeroShares,
    DuplicateParticipant,
}

/// `n` hundredths written with two decimals, as in `90.00`.
pub open spec fn hundredths(n: int) -> Seq<char> {
    let m = if n < 0 { -n } else { n };
    (if n < 0 { seq!['-'] } else { Seq::<char>::empty() }) + decimal((m / 100) as nat) + seq!['.']
        + decimal(((m % 100) / 10) as nat) + decimal((m % 10) as nat)
}

/// Every split type has a name that `parse` accepts, and no two share one:
/// parsing the text of a split type gives that split type back.
pub proof fn law_split_type_names(t: SplitType, u: SplitType)
    ensures
        t.name() == "equal"@ || t.name() == "exact"@ || t.name() == "percentage"@ || t.name()
            == "shares"@,
        t.name() == u.name() ==> t == u,
{
    reveal_strlit("equal");
    reveal_strlit("exact");
    reveal_strlit("percentage");
    reveal_strlit("shares");
    if t.name() == u.name() && t != u {
        assert(t.name().len() != u.name().len() || t.name()[1] != u.name()[1] || t.name()[2] != u.name()[2]);
    }
}

/// The split type of an expense request that names none.
pub fn default_split_type() -> (s: String)
    ensures
        s@ == SplitType::Equal.name(),
{
    string_from(SplitType::Equal.as_str())
}

impl SplitError {
    /// The user-facing description of the error.
    pub open spec fn text(&self) -> Seq<char> {
        match self {
            SplitError::UnknownSplitType(v) => "tipo de reparto desconocido: '"@ + v@ + "'"@,
            SplitError::NoParticipants => "el gasto necesita al menos un participante"@,
            SplitError::NonPositiveAmount => "el importe debe ser mayor a cero"@,
            SplitError::NegativeValue => "los valores del reparto no pueden ser negativos"@,
            SplitError::ExactMismatch { expected, got } => "los importes del reparto suman "@
                + signed_decimal(*got as int) + " y el gasto es de "@ + signed_decimal(
                *expected as int,
            ),
            SplitError::PercentageMismatch { got } => "los porcentajes deben sumar 100 % (suman "@
                + hundredths(*got as int) + " %)"@,
            SplitError::ZeroShares => "al menos un participante debe tener partes"@,
            SplitError::DuplicateParticipant => "hay participantes repetidos en el reparto"@,
        }
    }

    /// The user-facing description of the error.
    pub fn message(&self) -> (m: String)
        ensures
            m@ == self.text(),
    {
        let mut m = String::new();
        match self {
            SplitError::UnknownSplitType(v) => {
                push_str(&mut m, "tipo de reparto desconocido: '");
                push_str(&mut m, v.as_str());
                push_str(&mut m, "'");
            },
            SplitError::NoParticipants => {
                push_str(&mut m, "el gasto necesita al menos un participante");
            },
            SplitError::NonPositiveAmount => {
                push_str(&mut m, "el importe debe ser mayor a cero");
            },
            SplitError::NegativeValue => {
                push_str(&mut m, "los valores del reparto no pueden ser negativos");
            },
            SplitError::ExactMismatch { expected, got } => {
                push_str(&mut m, "los importes del reparto suman ");
                push_signed(&mut m, *got);
                push_str(&mut m, " y el gasto es de ");
                push_signed(&mut m, *expected);
            },
            SplitError::PercentageMismatch { got } => {
                push_str(&mut m, "los porcentajes deben sumar 100 % (suman ");
                push_hundredths(&mut m, *got);
                push_str(&mut m, " %)");
            },
            SplitError::ZeroShares => {
                push_str(&mut m, "al menos un participante debe tener partes");
            },
            SplitError::DuplicateParticipant => {
                push_str(&mut m, "hay participantes repetidos en el reparto");
            },
        }
        assert(m@ =~= self.text());
        m
    }
}

fn push_hundredths(s: &mut String, n: i64)
    ensures
        final(s)@ == old(s)@ + hundredths(n as int),
{
    let m: u64 = if n < 0 {
        push_char(s, '-');
        (-(n as i128)) as u64
    } else {
        n as u64
    };
    let ghost after_sign = s@;
    crate::text::push_decimal(s, m / 100);
    push_char(s, '.');
    crate::text::push_decimal(s, (m % 100) / 10);
    crate::text::push_decimal(s, m % 10);
    assert(s@ =~= old(s)@ + hundredths(n as int));
}

/// Split input: a participant and their raw value, read according to the split type.
#[derive(Clone, Copy, Debug)]
pub struct Participant {
    pub user_id: u128,
    pub value: i64,
}

/// Split result: how much each participant has to pay.
#[derive(Clone, Copy, Debug, PartialEq, Eq, Structural)]
pub struct Share {
    pub user_id: u128,
    pub share_cents: i64,
    pub split_value: i64,
}

// ---------------------------------------------------------------------------
// Largest remainder distribution
// ---------------------------------------------------------------------------

/// Whole part of `total * w / ws`.
pub open spec fn base_part(total: int, w: int, ws: int) -> int {
    (total * w) / ws
}

/// Fractional remainder of `total * w / ws`, scaled by `ws`.
pub open spec fn rest_part(total: int, w: int, ws: int) -> int {
    (total * w) % ws
}

/// Whether entry `a` is ahead of entry `b` when leftover cents are handed out:
/// larger remainder first, ties to the smaller index.
pub open spec fn ranks_ahead(total: int, w: Seq<i64>, a: int, b: int) -> bool {
    let ws = total_of(w);
    rest_part(total, w[a] as int, ws) > rest_part(total, w[b] as int, ws) || (rest_part(
        total,
        w[a] as int,
        ws,
    ) == rest_part(total, w[b] as int, ws) && a < b)
}

/// `out` is the largest remainder split of `total` proportionally to `w`:
/// everyone gets the whole part of their share, at most one cent more, the
/// extra cents go to entries ahead of all entries without one, and the parts
/// add up to `total`. With zero total weight everyone gets nothing.
pub open spec fn is_largest_remainder(total: int, w: Seq<i64>, out: Seq<i64>) -> bool {
    let ws = total_of(w);
    &&& out.len() == w.len()
    &&& ws == 0 ==> forall|i: int| 0 <= i < out.len() ==> out[i] == 0
    &&& ws != 0 ==> {
        &&& forall|i: int|
            0 <= i < out.len() ==> (out[i] == base_part(total, w[i] as int, ws) || out[i]
                == base_part(total, w[i] as int, ws) + 1)
        &&& forall|a: int, b: int|
            0 <= a < out.len() && 0 <= b < out.len() && out[a] == base_part(total, w[a] as int, ws)
                + 1 && out[b] == base_part(total, w[b] as int, ws) ==> ranks_ahead(total, w, a, b)
        &&& total_of(out) == total
    }
}

/// Sum of the scaled remainders of the first `k` entries.
pub open spec fn rest_sum(total: int, w: Seq<i64>, ws: int, k: int) -> int
    decreases k,
{
    if k <= 0 {
        0
    } else {
        rest_sum(total, w, ws, k - 1) + rest_part(total, w[k - 1] as int, ws)
    }
}

proof fn lemma_part_bounds(total: int, w: int, ws: int)
    requires
        0 <= total,
        0 <= w <= ws,
        0 < ws,
    ensures
        0 <= base_part(total, w, ws) <= total,
        0 <= rest_part(total, w, ws) < ws,
        ws * base_part(total, w, ws) + rest_part(total, w, ws) == total * w,
        rest_part(total, w, ws) > 0 ==> base_part(total, w, ws) < total,
{
    lemma_fundamental_div_mod(total * w, ws);
    lemma_mod_pos_bound(total * w, ws);
    lemma_mul_nonnegative(total, w);
    lemma_mul_inequality(w, ws, total);
    lemma_mul_is_commutative(w, total);
    lemma_mul_is_commutative(ws, total);
    lemma_div_is_ordered(total * w, total * ws, ws);
    lemma_div_multiples_vanish(total, ws);
    lemma_div_pos_is_pos(total * w, ws);
    assert(base_part(total, w, ws) <= total);
    if rest_part(total, w, ws) > 0 {
        assert(ws * base_part(total, w, ws) < total * ws);
        if base_part(total, w, ws) >= total {
            lemma_mul_inequality(total, base_part(total, w, ws), ws);
            lemma_mul_is_commutative(ws, base_part(total, w, ws));
        }
    }
}

/// Whole parts times the weight total, plus the remainders, give back
/// `total` times the prefix weight.
proof fn lemma_split_identity(total: int, w: Seq<i64>, ws: int, out: Seq<i64>, k: int)
    requires
        0 <= total,
        0 < ws,
        0 <= k <= w.len(),
        k <= out.len(),
        all_nonnegative(w),
        forall|i: int| 0 <= i < w.len() ==> w[i] <= ws,
        forall|i: int| 0 <= i < k ==> out[i] == base_part(total, w[i] as int, ws),
    ensures
        ws * prefix_sum(out, k) + rest_sum(total, w, ws, k) == total * prefix_sum(w, k),
        0 <= rest_sum(total, w, ws, k) < k * ws || k == 0,
        rest_sum(total, w, ws, k) >= 0,
    decreases k,
{
    if k > 0 {
        lemma_split_identity(total, w, ws, out, k - 1);
        lemma_part_bounds(total, w[k - 1] as int, ws);
        lemma_mul_is_distributive_add(ws, prefix_sum(out, k - 1), out[k - 1] as int);
        lemma_mul_is_distributive_add(total, prefix_sum(w, k - 1), w[k - 1] as int);
        assert((k - 1) * ws + ws == k * ws) by (nonlinear_arith);
    }
}

/// Prefix weights never exceed the total weight, and no single weight does either.
proof fn lemma_weights_bounded(w: Seq<i64>)
    requires
        all_nonnegative(w),
    ensures
        forall|i: int| 0 <= i < w.len() ==> w[i] <= total_of(w),
        forall|k: int| 0 <= k <= w.len() ==> 0 <= #[trigger] prefix_sum(w, k) <= total_of(w),
{
    assert forall|i: int| 0 <= i < w.len() implies w[i] <= total_of(w) by {
        lemma_prefix_sum_nonneg(w, i, w.len() as int);
    }
    assert forall|k: int| 0 <= k <= w.len() implies 0 <= #[trigger] prefix_sum(w, k) <= total_of(
        w,
    ) by {
        lemma_prefix_sum_nonneg(w, k, w.len() as int);
    }
}

/// Whether position `i` got one of the first `c` leftover cents of `order`.
pub open spec fn got_extra(order: Seq<(i128, usize)>, c: int, i: int) -> bool {
    exists|k: int| 0 <= k < c && (#[trigger] order[k]).1 == i
}

/// Splits `total` proportionally to `weights` with the largest remainder method.
///
/// The result always adds up to exactly `total` (when some weight is positive).
pub fn distribute(total: i64, weights: &[i64]) -> (result: Vec<i64>)
    requires
        total >= 0,
        all_nonnegative(weights@),
    ensures
        is_largest_remainder(total as int, weights@, result@),
{
    let n = weights.len();
    let ghost w = weights@;
    let mut weight_sum: i128 = 0;
    let mut k: usize = 0;
    while k < n
        invariant
            n == w.len(),
            w == weights@,
            all_nonnegative(w),
            k <= n,
            weight_sum == prefix_sum(w, k as int),
            0 <= weight_sum <= k * 0x7fff_ffff_ffff_ffffint,
        decreases n - k,
    {
        let wk = weights[k];
        assert((k + 1) * 0x7fff_ffff_ffff_ffffint <= 0x7fff_ffff_ffff_ffff_ffff_ffff_ffff_ffffint)
            by (nonlinear_arith)
            requires
                k + 1 <= 0xffff_ffff_ffff_ffffint,
        ;
        weight_sum = weight_sum + wk as i128;
        k = k + 1;
    }
    if weight_sum == 0 {
        return vec![0; weights.len()];
    }
    let ghost ws = weight_sum as int;
    proof {
        lemma_weights_bounded(w);
    }
    let total_128 = total as i128;
    let mut result: Vec<i64> = Vec::with_capacity(weights.len());
    // (remainder, index) so that ties are broken deterministically.
    let mut remainders: Vec<(i128, usize)> = Vec::with_capacity(weights.len());
    let mut idx: usize = 0;
    while idx < n
        invariant
            n == w.len(),
            w == weights@,
            all_nonnegative(w),
            ws == total_of(w),
            ws > 0,
            weight_sum == ws,
            total_128 == total,
            total >= 0,
            forall|i: int| 0 <= i < w.len() ==> w[i] <= ws,
            idx <= n,
            result@.len() == idx,
            remainders@.len() == idx,
            forall|i: int|
                0 <= i < idx ==> #[trigger] result@[i] == base_part(total as int, w[i] as int, ws),
            forall|i: int|
                0 <= i < idx ==> #[trigger] remainders@[i] == (
                    rest_part(total as int, w[i] as int, ws) as i128,
                    i as usize,
                ),
        decreases n - idx,
    {
        let wi = weights[idx];
        proof {
            lemma_part_bounds(total as int, wi as int, ws);
            lemma_mul_inequality(wi as int, 0x7fff_ffff_ffff_ffffint, total as int);
            lemma_mul_inequality(total as int, 0x7fff_ffff_ffff_ffffint, 0x7fff_ffff_ffff_ffffint);
            lemma_mul_nonnegative(total as int, wi as int);
        }
        let numerator = total_128 * wi as i128;
        result.push((numerator / weight_sum) as i64);
        remainders.push((numerator % weight_sum, idx));
        idx = idx + 1;
    }
    let ghost base = result@;
    let ghost r0 = remainders@;
    let mut assigned: i128 = 0;
    let mut m: usize = 0;
    while m < n
        invariant
            n == w.len(),
            all_nonnegative(w),
            ws == total_of(w),
            ws > 0,
            total >= 0,
            forall|i: int| 0 <= i < w.len() ==> w[i] <= ws,
            result@ == base,
            base.len() == n,
            forall|i: int| 0 <= i < n ==> #[trigger] base[i] == base_part(total as int, w[i] as int, ws),
            m <= n,
            assigned == prefix_sum(base, m as int),
            0 <= assigned <= total,
        decreases n - m,
    {
        proof {
            lemma_split_identity(total as int, w, ws, base, m as int + 1);
            lemma_weights_bounded(w);
            assert(prefix_sum(w, m as int + 1) <= ws);
            let p = prefix_sum(base, m as int + 1);
            let r = rest_sum(total as int, w, ws, m as int + 1);
            let wp = prefix_sum(w, m as int + 1);
            assert(p <= total) by (nonlinear_arith)
                requires
                    ws * p + r == total * wp,
                    r >= 0,
                    wp <= ws,
                    ws > 0,
                    total >= 0,
            ;
            lemma_part_bounds(total as int, w[m as int] as int, ws);
        }
        assigned = assigned + result[m] as i128;
        m = m + 1;
    }
    let mut leftover: i128 = total_128 - assigned;
    let ghost extra = leftover as int;
    proof {
        lemma_split_identity(total as int, w, ws, base, n as int);
        let r = rest_sum(total as int, w, ws, n as int);
        let p = prefix_sum(base, n as int);
        assert(ws * extra == r) by (nonlinear_arith)
            requires
                ws * p + r == total * ws,
                extra == total - p,
        ;
        assert(n > 0);
        assert(0 <= extra) by (nonlinear_arith)
            requires
                ws * extra == r,
                0 <= r,
                ws > 0,
        ;
        assert(extra < n) by (nonlinear_arith)
            requires
                ws * extra == r,
                r < n * ws,
                ws > 0,
        ;
    }
    // Largest remainder first; on a tie, the smaller index.
    sort_remainders(&mut remainders);
    let ghost order = remainders@;
    proof {
        lemma_remainder_leq_total();
        assert(r0.no_duplicates());
        r0.lemma_multiset_has_no_duplicates();
        assert forall|x: (i128, usize)| order.to_multiset().contains(x) implies order.to_multiset().count(x) == 1 by {}
        order.lemma_multiset_has_no_duplicates_conv();
        assert forall|k: int| 0 <= k < n implies #[trigger] order[k] == (
            rest_part(total as int, w[order[k].1 as int] as int, ws) as i128,
            order[k].1,
        ) && order[k].1 < n by {
            assert(order.contains(order[k]));
            assert(order.to_multiset().count(order[k]) > 0);
            assert(r0.contains(order[k]));
        }
        assert forall|i: int| 0 <= i < n implies 0 <= #[trigger] base[i] <= total by {
            lemma_part_bounds(total as int, w[i] as int, ws);
        }
        assert forall|i: int| #![trigger r0[i]] 0 <= i < n implies exists|k: int|
            0 <= k < n && #[trigger] order[k] == r0[i] by {
            assert(r0.contains(r0[i]));
            assert(r0.to_multiset().count(r0[i]) > 0);
            assert(order.contains(r0[i]));
        }
    }
    let mut cursor: usize = 0;
    while leftover > 0 && !remainders.is_empty()
        invariant
            n == w.len(),
            ws == total_of(w),
            ws > 0,
            total >= 0,
            remainders@ == order,
            order.len() == n,
            order.no_duplicates(),
            forall|k: int|
                0 <= k < n ==> #[trigger] order[k] == (
                    rest_part(total as int, w[order[k].1 as int] as int, ws) as i128,
                    order[k].1,
                ) && order[k].1 < n,
            result@.len() == n,
            0 <= extra < n,
            0 <= leftover,
            leftover + cursor == extra,
            forall|i: int|
                0 <= i < n ==> #[trigger] result@[i] == base[i] + (if got_extra(order, cursor as int, i) {
                    1int
                } else {
                    0int
                }),
            forall|i: int| 0 <= i < n ==> #[trigger] base[i] == base_part(total as int, w[i] as int, ws),
            forall|i: int| 0 <= i < n ==> 0 <= #[trigger] base[i] <= total,
            prefix_sum(result@, n as int) == total - leftover,
        decreases leftover,
    {
        proof {
            lemma_small_mod(cursor as nat, n as nat);
        }
        let pos = remainders[cursor % remainders.len()].1;
        proof {
            assert forall|k: int| 0 <= k < cursor implies (#[trigger] order[k]).1 != pos by {
                assert(order[k] != order[cursor as int]);
            }
            assert(!got_extra(order, cursor as int, pos as int));
            assert forall|i: int| 0 <= i < n implies #[trigger] result@[i] >= 0 by {
                assert(base[i] >= 0);
            }
            lemma_prefix_sum_nonneg(result@, pos as int, n as int);
        }
        let current = result[pos];
        let ghost prev = result@;
        result.set(pos, current + 1);
        proof {
            lemma_prefix_sum_update(prev, pos as int, (current + 1) as i64, n as int);
            assert forall|i: int| 0 <= i < n implies #[trigger] result@[i] == base[i] + (if got_extra(
                order,
                cursor as int + 1,
                i,
            ) {
                1int
            } else {
                0int
            }) by {
                if i == pos {
                    assert(order[cursor as int].1 == i);
                } else {
                    if got_extra(order, cursor as int + 1, i) {
                        let k = choose|k: int| 0 <= k < cursor + 1 && (#[trigger] order[k]).1 == i;
                        assert(k != cursor);
                    }
                }
            }
        }
        leftover = leftover - 1;
        cursor = cursor + 1;
    }
    proof {
        assert(cursor == extra);
        assert(total_of(result@) == total);
        assert forall|a: int, b: int|
            0 <= a < n && 0 <= b < n && result@[a] == base_part(total as int, w[a] as int, ws) + 1
                && result@[b] == base_part(total as int, w[b] as int, ws) implies ranks_ahead(
            total as int,
            w,
            a,
            b,
        ) by {
            assert(got_extra(order, extra, a));
            assert(!got_extra(order, extra, b));
            let ka = choose|k: int| 0 <= k < extra && (#[trigger] order[k]).1 == a;
            assert(r0[b] == (rest_part(total as int, w[b] as int, ws) as i128, b as usize));
            let kb = choose|k: int| 0 <= k < n && #[trigger] order[k] == r0[b];
            assert(order[kb].1 == b);
            if kb < extra {
                assert(got_extra(order, extra, b));
            }
            assert(ka < kb);
            assert(remainder_leq(order[ka], order[kb]));
            assert(order[ka] == (rest_part(total as int, w[a] as int, ws) as i128, a as usize));
        }
    }
    result
}

} // verus!

verus! {

// ---------------------------------------------------------------------------
// Computing shares
// ---------------------------------------------------------------------------

pub open spec fn values_of(ps: Seq<Participant>) -> Seq<i64> {
    ps.map_values(|p: Participant| p.value)
}

pub open spec fn cents_of(ss: Seq<Share>) -> Seq<i64> {
    ss.map_values(|s: Share| s.share_cents)
}

pub open spec fn ids_distinct(ps: Seq<Participant>) -> bool {
    forall|i: int, j: int| 0 <= i < j < ps.len() ==> ps[i].user_id != ps[j].user_id
}

/// The weights the proportional split types divide by.
pub open spec fn split_weights(t: SplitType, ps: Seq<Participant>) -> Seq<i64> {
    if t == SplitType::Equal {
        Seq::new(ps.len(), |i: int| 1i64)
    } else {
        values_of(ps)
    }
}

/// The error `compute_shares` answers for these inputs, checked in this order;
/// `None` when the split goes through.
pub open spec fn split_error(amount: i64, t: SplitType, ps: Seq<Participant>) -> Option<SplitError> {
    let total = total_of(values_of(ps));
    if amount <= 0 {
        Some(SplitError::NonPositiveAmount)
    } else if ps.len() == 0 {
        Some(SplitError::NoParticipants)
    } else if !all_nonnegative(values_of(ps)) {
        Some(SplitError::NegativeValue)
    } else if !ids_distinct(ps) {
        Some(SplitError::DuplicateParticipant)
    } else {
        match t {
            SplitType::Equal => None,
            SplitType::Exact => if total != amount {
                Some(SplitError::ExactMismatch { expected: amount, got: total as i64 })
            } else {
                None
            },
            SplitType::Percentage => if total != 10_000 {
                Some(SplitError::PercentageMismatch { got: total as i64 })
            } else {
                None
            },
            SplitType::Shares => if total <= 0 {
                Some(SplitError::ZeroShares)
            } else {
                None
            },
        }
    }
}

/// `shares` is the split of `amount` between `ps` for split type `t`: one
/// share per participant, in order, with the participant's raw value kept
/// (zero for equal splits), exact amounts taken as they are, and every other
/// type divided by the largest remainder method.
pub open spec fn is_split_of(amount: i64, t: SplitType, ps: Seq<Participant>, shares: Seq<Share>) -> bool {
    &&& shares.len() == ps.len()
    &&& forall|i: int|
        0 <= i < ps.len() ==> (#[trigger] shares[i]).user_id == ps[i].user_id && shares[i].split_value
            == (if t == SplitType::Equal {
            0
        } else {
            ps[i].value
        })
    &&& if t == SplitType::Exact {
        forall|i: int| 0 <= i < ps.len() ==> (#[trigger] shares[i]).share_cents == ps[i].value
    } else {
        is_largest_remainder(amount as int, split_weights(t, ps), cents_of(shares))
    }
}

proof fn lemma_ones_prefix(s: Seq<i64>, k: int)
    requires
        0 <= k <= s.len(),
        forall|i: int| 0 <= i < s.len() ==> s[i] == 1,
    ensures
        prefix_sum(s, k) == k,
    decreases k,
{
    if k > 0 {
        lemma_ones_prefix(s, k - 1);
    }
}

/// Splits `amount_cents` between `participants`.
///
/// On success the shares always add up to exactly `amount_cents`.
pub fn compute_shares(amount_cents: i64, split_type: SplitType, participants: &[Participant]) -> (r:
    Result<Vec<Share>, SplitError>)
    requires
        (amount_cents > 0 && participants@.len() > 0 && all_nonnegative(values_of(participants@))
            && ids_distinct(participants@) && split_type != SplitType::Equal) ==> total_of(
            values_of(participants@),
        ) <= i64::MAX,
    ensures
        match split_error(amount_cents, split_type, participants@) {
            Some(e) => r == Err::<Vec<Share>, SplitError>(e),
            None => r matches Ok(shares) && is_split_of(amount_cents, split_type, participants@, shares@),
        },
        r matches Ok(shares) ==> total_of(cents_of(shares@)) == amount_cents,
{
    let ghost ps = participants@;
    let ghost vals = values_of(ps);
    if amount_cents <= 0 {
        return Err(SplitError::NonPositiveAmount);
    }
    if participants.len() == 0 {
        return Err(SplitError::NoParticipants);
    }
    let mut i: usize = 0;
    while i < participants.len()
        invariant
            i <= participants.len(),
            ps == participants@,
            vals == values_of(ps),
            amount_cents > 0,
            ps.len() > 0,
            forall|k: int| 0 <= k < i ==> vals[k] >= 0,
        decreases participants.len() - i,
    {
        if participants[i].value < 0 {
            assert(vals[i as int] == participants@[i as int].value);
            assert(!all_nonnegative(vals));
            return Err(SplitError::NegativeValue);
        }
        i = i + 1;
    }
    if has_duplicates(participants) {
        return Err(SplitError::DuplicateParticipant);
    }
    let n = participants.len();
    match split_type {
        SplitType::Equal => {
            let mut weights: Vec<i64> = Vec::new();
            let mut k: usize = 0;
            while k < n
                invariant
                    k <= n,
                    weights@ == Seq::new(k as nat, |i: int| 1i64),
                decreases n - k,
            {
                weights.push(1);
                k = k + 1;
                assert(weights@ =~= Seq::new(k as nat, |i: int| 1i64));
            }
            proof {
                lemma_ones_prefix(weights@, n as int);
                assert(weights@ == split_weights(split_type, ps));
            }
            let shares = distribute(amount_cents, &weights);
            let out = zip_shares(participants, &shares, no_value);
            proof {
                assert(cents_of(out@) =~= shares@);
            }
            Ok(out)
        },
        SplitType::Exact => {
            let total = values_total(participants);
            if total != amount_cents {
                return Err(SplitError::ExactMismatch { expected: amount_cents, got: total });
            }
            let mut out: Vec<Share> = Vec::new();
            let mut k: usize = 0;
            while k < n
                invariant
                    k <= n,
                    n == ps.len(),
                    ps == participants@,
                    out@.len() == k,
                    forall|j: int|
                        0 <= j < k ==> #[trigger] out@[j] == (Share {
                            user_id: ps[j].user_id,
                            share_cents: ps[j].value,
                            split_value: ps[j].value,
                        }),
                decreases n - k,
            {
                let p = participants[k];
                out.push(Share { user_id: p.user_id, share_cents: p.value, split_value: p.value });
                k = k + 1;
            }
            proof {
                assert(cents_of(out@) =~= vals);
            }
            Ok(out)
        },
        SplitType::Percentage => {
            let total = values_total(participants);
            if total != 10_000 {
                return Err(SplitError::PercentageMismatch { got: total });
            }
            let weights = values_vec(participants);
            let shares = distribute(amount_cents, &weights);
            let out = zip_shares(participants, &shares, raw_value);
            proof {
                assert(cents_of(out@) =~= shares@);
            }
            Ok(out)
        },
        SplitType::Shares => {
            let total = values_total(participants);
            if total <= 0 {
                return Err(SplitError::ZeroShares);
            }
            let weights = values_vec(participants);
            let shares = distribute(amount_cents, &weights);
            let out = zip_shares(participants, &shares, raw_value);
            proof {
                assert(cents_of(out@) =~= shares@);
            }
            Ok(out)
        },
    }
}

/// The recorded split value of an equal split.
fn no_value(_p: &Participant) -> (v: i64)
    ensures
        v == 0,
{
    0
}

/// The recorded split value of a proportional split: the raw value.
fn raw_value(p: &Participant) -> (v: i64)
    ensures
        v == p.value,
{
    p.value
}

/// Sum of the participants' values, which must not overflow.
fn values_total(participants: &[Participant]) -> (total: i64)
    requires
        all_nonnegative(values_of(participants@)),
        total_of(values_of(participants@)) <= i64::MAX,
    ensures
        total == total_of(values_of(participants@)),
{
    let ghost vals = values_of(participants@);
    let mut total: i64 = 0;
    let mut k: usize = 0;
    while k < participants.len()
        invariant
            k <= participants.len(),
            vals == values_of(participants@),
            all_nonnegative(vals),
            total_of(vals) <= i64::MAX,
            total == prefix_sum(vals, k as int),
        decreases participants.len() - k,
    {
        proof {
            lemma_prefix_sum_nonneg(vals, k as int + 1, vals.len() as int);
        }
        total = total + participants[k].value;
        k = k + 1;
    }
    total
}

/// The participants' values, in order.
fn values_vec(participants: &[Participant]) -> (w: Vec<i64>)
    ensures
        w@ == values_of(participants@),
{
    let mut w: Vec<i64> = Vec::new();
    let mut k: usize = 0;
    while k < participants.len()
        invariant
            k <= participants.len(),
            w@ == values_of(participants@).take(k as int),
        decreases participants.len() - k,
    {
        w.push(participants[k].value);
        k = k + 1;
        assert(w@ =~= values_of(participants@).take(k as int));
    }
    assert(values_of(participants@).take(k as int) =~= values_of(participants@));
    w
}

/// Whether two participants share a user id.
fn has_duplicates(participants: &[Participant]) -> (r: bool)
    ensures
        r == !ids_distinct(participants@),
{
    let n = participants.len();
    let mut i: usize = 0;
    while i < n
        invariant
            i <= n,
            n == participants@.len(),
            forall|a: int, b: int|
                0 <= a < i && a < b < n ==> participants@[a].user_id != participants@[b].user_id,
        decreases n - i,
    {
        let mut j: usize = i + 1;
        while j < n
            invariant
                i < n,
                i + 1 <= j <= n,
                n == participants@.len(),
                forall|b: int| i < b < j ==> participants@[i as int].user_id != participants@[b].user_id,
            decreases n - j,
        {
            if participants[j].user_id == participants[i].user_id {
                return true;
            }
            j = j + 1;
        }
        i = i + 1;
    }
    false
}

/// Pairs each participant with their computed cents.
fn zip_shares<F: Fn(&Participant) -> i64>(participants: &[Participant], shares: &[i64], value_of: F) -> (out: Vec<Share>)
    requires
        shares@.len() == participants@.len(),
        forall|p: &Participant| call_requires(value_of, (p,)),
    ensures
        out@.len() == participants@.len(),
        forall|i: int|
            0 <= i < participants@.len() ==> (#[trigger] out@[i]).user_id == participants@[i].user_id
                && out@[i].share_cents == shares@[i] && call_ensures(
                value_of,
                (&participants@[i],),
                out@[i].split_value,
            ),
{
    let mut out: Vec<Share> = Vec::new();
    let mut k: usize = 0;
    while k < participants.len()
        invariant
            k <= participants.len(),
            shares@.len() == participants@.len(),
            forall|p: &Participant| call_requires(value_of, (p,)),
            out@.len() == k,
            forall|i: int|
                0 <= i < k ==> (#[trigger] out@[i]).user_id == participants@[i].user_id
                    && out@[i].share_cents == shares@[i] && call_ensures(
                    value_of,
                    (&participants@[i],),
                    out@[i].split_value,
                ),
        decreases participants.len() - k,
    {
        let p = &participants[k];
        let v = value_of(p);
        out.push(Share { user_id: p.user_id, share_cents: shares[k], split_value: v });
        k = k + 1;
    }
    out
}

} // verus!
