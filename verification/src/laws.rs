//! Laws of the settlement model: properties that hold of every request, proved
//! once and for all against the spec functions that `calculate`'s contract
//! uses.

use vstd::prelude::*;
use vstd::arithmetic::div_mod::lemma_fundamental_div_mod;
use crate::models::{BillSplitParticipant, BillSplitState, CalcError, SplitMode, SplitResult,
    pct_or_zero, state_wf, PERCENT_SCALE};
use crate::rounding::{round_div, lemma_round_div_close, lemma_round_div_exact};
use crate::engine::{balance_of, calc_post, credits_upto, debts_upto, good_credit_entry,
    good_debt_entry, greedy_payments, lemma_credits_upto_entries, lemma_debts_upto_entries,
    payments_for, pct_sum_ok, recs_of, rows_view, share_of, sum_paid, sum_pct};

verus! {

/// Sum of the shares of all participants, in input order.
pub open spec fn sum_shares(
    ps: Seq<BillSplitParticipant>,
    mode: SplitMode,
    num_people: int,
    total: int,
) -> int
    decreases ps.len(),
{
    if ps.len() == 0 {
        0
    } else {
        sum_shares(ps.drop_last(), mode, num_people, total) + share_of(
            mode,
            num_people,
            total,
            ps.last(),
        )
    }
}

/// Sum of the balances of all participants, in input order.
pub open spec fn sum_balances(
    ps: Seq<BillSplitParticipant>,
    mode: SplitMode,
    num_people: int,
    total: int,
) -> int
    decreases ps.len(),
{
    if ps.len() == 0 {
        0
    } else {
        sum_balances(ps.drop_last(), mode, num_people, total) + balance_of(
            mode,
            num_people,
            total,
            ps.last(),
        )
    }
}

/// How many participants are marked as the payer.
pub open spec fn payer_count(ps: Seq<BillSplitParticipant>) -> int
    decreases ps.len(),
{
    if ps.len() == 0 {
        0
    } else {
        payer_count(ps.drop_last()) + if ps.last().is_payer == Some(true) {
            1int
        } else {
            0int
        }
    }
}

/// The balances sum to what was paid minus what is owed in shares.
pub proof fn lemma_sum_balances_split(
    ps: Seq<BillSplitParticipant>,
    mode: SplitMode,
    num_people: int,
    total: int,
)
    ensures
        sum_balances(ps, mode, num_people, total) == sum_paid(ps) - sum_shares(
            ps,
            mode,
            num_people,
            total,
        ),
    decreases ps.len(),
{
    if ps.len() > 0 {
        lemma_sum_balances_split(ps.drop_last(), mode, num_people, total);
    }
}

/// In equal mode every share is the same rounded quotient, so the shares sum
/// to the participant count times that quotient.
pub proof fn lemma_sum_shares_equal(ps: Seq<BillSplitParticipant>, num_people: int, total: int)
    ensures
        sum_shares(ps, SplitMode::Equal, num_people, total) == ps.len() * round_div(
            total,
            num_people,
        ),
    decreases ps.len(),
{
    let q = round_div(total, num_people);
    if ps.len() == 0 {
    } else {
        lemma_sum_shares_equal(ps.drop_last(), num_people, total);
        assert((ps.len() - 1) * q + q == ps.len() * q) by (nonlinear_arith);
    }
}

/// In solo mode each payer owes the whole total and everyone else nothing.
pub proof fn lemma_sum_shares_solo(ps: Seq<BillSplitParticipant>, num_people: int, total: int)
    ensures
        sum_shares(ps, SplitMode::Solo, num_people, total) == payer_count(ps) * total,
    decreases ps.len(),
{
    if ps.len() == 0 {
    } else {
        lemma_sum_shares_solo(ps.drop_last(), num_people, total);
        let c = payer_count(ps.drop_last());
        assert(c * total + total == (c + 1) * total) by (nonlinear_arith);
        assert(c * total + 0 == (c + 0) * total) by (nonlinear_arith);
    }
}

/// In percentage mode each rounded share is within half a cent of its exact
/// value, so the scaled share sum is within half a scale unit per participant
/// of `total * sum_pct`.
pub proof fn lemma_sum_shares_pct_err(ps: Seq<BillSplitParticipant>, num_people: int, total: int)
    ensures
        -(ps.len() * (PERCENT_SCALE as int)) <= 2 * ((PERCENT_SCALE as int) * sum_shares(
            ps,
            SplitMode::Percentage,
            num_people,
            total,
        ) - total * sum_pct(ps)),
        2 * ((PERCENT_SCALE as int) * sum_shares(ps, SplitMode::Percentage, num_people, total)
            - total * sum_pct(ps)) <= ps.len() * (PERCENT_SCALE as int),
    decreases ps.len(),
{
    let scale = PERCENT_SCALE as int;
    if ps.len() == 0 {
    } else {
        let pre = ps.drop_last();
        let p = ps.last();
        lemma_sum_shares_pct_err(pre, num_people, total);
        let pct = pct_or_zero(p);
        lemma_round_div_close(total * pct, scale);
        let share = round_div(total * pct, scale);
        assert(total * (sum_pct(pre) + pct) == total * sum_pct(pre) + total * pct)
            by (nonlinear_arith);
        assert((ps.len() - 1) * scale + scale == ps.len() * scale) by (nonlinear_arith);
    }
}

/// Equal split, with the divisor equal to the participant count: the shares
/// sum to the total within half a cent per participant, and exactly when the
/// total divides evenly.
pub proof fn lemma_equal_split_share_sum(s: BillSplitState)
    requires
        state_wf(s),
        s.split_mode is Equal,
        s.participants@.len() >= 1,
        s.num_people == s.participants@.len(),
    ensures
        -(s.participants@.len() as int) <= 2 * (sum_shares(
            s.participants@,
            s.split_mode,
            s.num_people as int,
            sum_paid(s.participants@),
        ) - sum_paid(s.participants@)),
        2 * (sum_shares(s.participants@, s.split_mode, s.num_people as int, sum_paid(
            s.participants@,
        )) - sum_paid(s.participants@)) <= s.participants@.len() as int,
        sum_paid(s.participants@) % (s.num_people as int) == 0 ==> sum_shares(
            s.participants@,
            s.split_mode,
            s.num_people as int,
            sum_paid(s.participants@),
        ) == sum_paid(s.participants@),
{
    let ps = s.participants@;
    let np = s.num_people as int;
    let total = sum_paid(ps);
    lemma_sum_shares_equal(ps, np, total);
    lemma_round_div_close(total, np);
    let q = round_div(total, np);
    assert(ps.len() * q == np * q);
    if total % np == 0 {
        lemma_round_div_exact(total, np);
        lemma_fundamental_div_mod(total, np);
    }
}

/// The balances sum to zero within half a cent per participant, for every
/// mode on the inputs where the share formula covers the whole total: equal
/// mode with the divisor equal to the participant count, percentage mode with
/// percentages summing to exactly 100%, and solo mode with exactly one payer.
pub proof fn lemma_balance_sum_bounded(s: BillSplitState)
    requires
        state_wf(s),
        s.participants@.len() >= 1,
        (s.split_mode is Equal && s.num_people == s.participants@.len()) || (
        s.split_mode is Percentage && sum_pct(s.participants@) == PERCENT_SCALE) || (
        s.split_mode is Solo && payer_count(s.participants@) == 1),
    ensures
        -(s.participants@.len() as int) <= 2 * sum_balances(
            s.participants@,
            s.split_mode,
            s.num_people as int,
            sum_paid(s.participants@),
        ),
        2 * sum_balances(s.participants@, s.split_mode, s.num_people as int, sum_paid(
            s.participants@,
        )) <= s.participants@.len() as int,
{
    let ps = s.participants@;
    let mode = s.split_mode;
    let np = s.num_people as int;
    let total = sum_paid(ps);
    let scale = PERCENT_SCALE as int;
    let n = ps.len() as int;
    lemma_sum_balances_split(ps, mode, np, total);
    if mode is Equal {
        lemma_equal_split_share_sum(s);
    } else if mode is Percentage {
        lemma_sum_shares_pct_err(ps, np, total);
        let ss = sum_shares(ps, mode, np, total);
        assert(2 * (scale * ss - total * scale) == scale * (2 * (ss - total)))
            by (nonlinear_arith);
        assert(-n <= 2 * (ss - total) && 2 * (ss - total) <= n) by (nonlinear_arith)
            requires
                scale >= 1,
                -(n * scale) <= scale * (2 * (ss - total)),
                scale * (2 * (ss - total)) <= n * scale,
        ;
    } else {
        lemma_sum_shares_solo(ps, np, total);
    }
}

/// An empty participant list always fails with `NoParticipants`, whatever the
/// mode.
pub proof fn lemma_empty_input_rejected(s: BillSplitState, r: Result<Vec<SplitResult>, CalcError>)
    requires
        calc_post(s, r),
        s.participants@.len() == 0,
    ensures
        r matches Err(CalcError::NoParticipants),
{
}

/// In percentage mode on a non-empty list, the calculation succeeds exactly
/// when the percentages sum to 100% within tolerance, and otherwise fails
/// with `BadPercentSum`.
pub proof fn lemma_percent_sum_gate(s: BillSplitState, r: Result<Vec<SplitResult>, CalcError>)
    requires
        calc_post(s, r),
        s.participants@.len() > 0,
        s.split_mode is Percentage,
    ensures
        r is Ok <==> pct_sum_ok(s.participants@),
        !pct_sum_ok(s.participants@) ==> r matches Err(CalcError::BadPercentSum),
{
}

/// Sum of the amounts of a debtor or creditor list.
pub open spec fn sum_amts(s: Seq<(int, int)>) -> int
    decreases s.len(),
{
    if s.len() == 0 {
        0
    } else {
        s[0].1 + sum_amts(s.drop_first())
    }
}

/// Sum of the amounts of one row's payment list.
pub open spec fn pay_sum(pf: Seq<(int, int)>) -> int
    decreases pf.len(),
{
    if pf.len() == 0 {
        0
    } else {
        pay_sum(pf.drop_last()) + pf.last().1
    }
}

/// Everything participant `k` pays across all records.
pub open spec fn paid_total(recs: Seq<(int, int, int)>, k: int) -> int
    decreases recs.len(),
{
    if recs.len() == 0 {
        0
    } else {
        paid_total(recs.drop_last(), k) + if recs.last().0 == k {
            recs.last().2
        } else {
            0int
        }
    }
}

/// No two entries of the list name the same participant.
pub open spec fn distinct_indices(s: Seq<(int, int)>) -> bool {
    forall|t1: int, t2: int|
        0 <= t1 < t2 < s.len() ==> (#[trigger] s[t1]).0 != (#[trigger] s[t2]).0
}

/// Every entry of the list carries at least one cent.
pub open spec fn positive_amts(s: Seq<(int, int)>) -> bool {
    forall|t: int| 0 <= t < s.len() ==> (#[trigger] s[t]).1 >= 1
}

/// Summing a row's payments and summing its records agree.
pub proof fn lemma_pay_sum_payments_for(recs: Seq<(int, int, int)>, k: int)
    ensures
        pay_sum(payments_for(recs, k)) == paid_total(recs, k),
    decreases recs.len(),
{
    if recs.len() > 0 {
        lemma_pay_sum_payments_for(recs.drop_last(), k);
        let pre = payments_for(recs.drop_last(), k);
        let r = recs.last();
        if r.0 == k {
            assert(pre.push((r.1, r.2)).drop_last() =~= pre);
        }
    }
}

/// Replacing the head entry changes the sum by the difference of amounts.
pub proof fn lemma_sum_amts_update0(s: Seq<(int, int)>, x: (int, int))
    requires
        s.len() >= 1,
    ensures
        sum_amts(s.update(0, x)) == sum_amts(s) - s[0].1 + x.1,
{
    assert(s.update(0, x).drop_first() =~= s.drop_first());
}

/// Appending an entry adds its amount to the sum.
pub proof fn lemma_sum_amts_push(s: Seq<(int, int)>, x: (int, int))
    ensures
        sum_amts(s.push(x)) == sum_amts(s) + x.1,
    decreases s.len(),
{
    if s.len() == 0 {
        assert(s.push(x)[0] == x);
        assert(s.push(x).drop_first() =~= Seq::<(int, int)>::empty());
        assert(sum_amts(Seq::<(int, int)>::empty()) == 0);
    } else {
        assert(s.push(x)[0] == s[0]);
        assert(s.push(x).drop_first() =~= s.drop_first().push(x));
        lemma_sum_amts_push(s.drop_first(), x);
    }
}

/// A single record pays its amount to its debtor and nothing to anyone else.
pub proof fn lemma_paid_total_singleton(h: (int, int, int), k: int)
    ensures
        paid_total(seq![h], k) == if h.0 == k {
            h.2
        } else {
            0int
        },
{
    assert(seq![h].len() == 1);
    assert(seq![h].last() == h);
    assert(seq![h].drop_last() =~= Seq::<(int, int, int)>::empty());
    assert(paid_total(Seq::<(int, int, int)>::empty(), k) == 0);
}

/// A list of positive amounts sums to at least its length.
pub proof fn lemma_sum_amts_pos(s: Seq<(int, int)>)
    requires
        positive_amts(s),
    ensures
        sum_amts(s) >= s.len(),
    decreases s.len(),
{
    if s.len() > 0 {
        assert forall|t: int| 0 <= t < s.drop_first().len() implies (#[trigger] s.drop_first()[
        t]).1 >= 1 by {
            assert(s.drop_first()[t] == s[t + 1]);
        }
        lemma_sum_amts_pos(s.drop_first());
    }
}

/// `paid_total` distributes over concatenation.
pub proof fn lemma_paid_total_concat(a: Seq<(int, int, int)>, b: Seq<(int, int, int)>, k: int)
    ensures
        paid_total(a + b, k) == paid_total(a, k) + paid_total(b, k),
    decreases b.len(),
{
    if b.len() == 0 {
        assert(a + b =~= a);
    } else {
        assert((a + b).drop_last() =~= a + b.drop_last());
        assert((a + b).last() == b.last());
        lemma_paid_total_concat(a, b.drop_last(), k);
    }
}

/// A participant no record names pays nothing.
pub proof fn lemma_paid_total_zero(recs: Seq<(int, int, int)>, k: int)
    requires
        forall|t: int| 0 <= t < recs.len() ==> (#[trigger] recs[t]).0 != k,
    ensures
        paid_total(recs, k) == 0,
    decreases recs.len(),
{
    if recs.len() > 0 {
        lemma_paid_total_zero(recs.drop_last(), k);
    }
}

/// A participant no record names has an empty payment list.
pub proof fn lemma_payments_for_empty(recs: Seq<(int, int, int)>, k: int)
    requires
        forall|t: int| 0 <= t < recs.len() ==> (#[trigger] recs[t]).0 != k,
    ensures
        payments_for(recs, k) == Seq::<(int, int)>::empty(),
    decreases recs.len(),
{
    if recs.len() > 0 {
        lemma_payments_for_empty(recs.drop_last(), k);
    }
}

/// Every record the greedy sweep emits names a debtor from the debtor list.
pub proof fn lemma_greedy_rec_indices(debts: Seq<(int, int)>, credits: Seq<(int, int)>)
    ensures
        forall|r: int|
            0 <= r < greedy_payments(debts, credits).len() ==> exists|t: int|
                0 <= t < debts.len() && debts[t].0 == (#[trigger] greedy_payments(debts, credits)[
                r]).0,
    decreases debts.len() + credits.len(),
{
    let g = greedy_payments(debts, credits);
    if debts.len() == 0 || credits.len() == 0 {
    } else {
        let da = debts[0].1;
        let ca = credits[0].1;
        if da <= 0 {
            lemma_greedy_rec_indices(debts.drop_first(), credits);
            assert(g == greedy_payments(debts.drop_first(), credits));
            assert forall|r: int| 0 <= r < g.len() implies exists|t: int|
                0 <= t < debts.len() && debts[t].0 == (#[trigger] g[r]).0 by {
                assert(g[r] == greedy_payments(debts.drop_first(), credits)[r]);
                let t2 = choose|t2: int|
                    0 <= t2 < debts.drop_first().len() && debts.drop_first()[t2].0 == g[r].0;
                assert(debts[t2 + 1] == debts.drop_first()[t2]);
            }
        } else if ca <= 0 {
            lemma_greedy_rec_indices(debts, credits.drop_first());
            assert(g == greedy_payments(debts, credits.drop_first()));
            assert forall|r: int| 0 <= r < g.len() implies exists|t: int|
                0 <= t < debts.len() && debts[t].0 == (#[trigger] g[r]).0 by {
                assert(g[r] == greedy_payments(debts, credits.drop_first())[r]);
            }
        } else {
            let amt = if da <= ca {
                da
            } else {
                ca
            };
            let debts2 = if da == amt {
                debts.drop_first()
            } else {
                debts.update(0, (debts[0].0, da - amt))
            };
            let credits2 = if ca == amt {
                credits.drop_first()
            } else {
                credits.update(0, (credits[0].0, ca - amt))
            };
            let rest = greedy_payments(debts2, credits2);
            lemma_greedy_rec_indices(debts2, credits2);
            assert(g == seq![(debts[0].0, credits[0].0, amt)] + rest);
            assert forall|r: int| 0 <= r < g.len() implies exists|t: int|
                0 <= t < debts.len() && debts[t].0 == (#[trigger] g[r]).0 by {
                if r == 0 {
                    assert(g[0].0 == debts[0].0);
                } else {
                    assert(g[r] == rest[r - 1]);
                    assert(rest[r - 1] == greedy_payments(debts2, credits2)[r - 1]);
                    let t2 = choose|t2: int|
                        0 <= t2 < debts2.len() && debts2[t2].0 == rest[r - 1].0;
                    if da == amt {
                        assert(debts[t2 + 1] == debts2[t2]);
                    } else {
                        assert(debts2[t2].0 == debts[t2].0);
                    }
                }
            }
        }
    }
}

/// When the creditors can absorb all the debt, the greedy sweep settles every
/// debtor in full: the records for each debtor sum to exactly what that
/// debtor owed.
pub proof fn lemma_greedy_settles_debtors(debts: Seq<(int, int)>, credits: Seq<(int, int)>)
    requires
        positive_amts(debts),
        positive_amts(credits),
        distinct_indices(debts),
        sum_amts(debts) <= sum_amts(credits),
    ensures
        forall|t: int|
            0 <= t < debts.len() ==> paid_total(
                greedy_payments(debts, credits),
                (#[trigger] debts[t]).0,
            ) == debts[t].1,
    decreases debts.len() + credits.len(),
{
    let g = greedy_payments(debts, credits);
    if debts.len() == 0 {
    } else if credits.len() == 0 {
        lemma_sum_amts_pos(debts);
        assert(false);
    } else {
        let da = debts[0].1;
        let ca = credits[0].1;
        let amt = if da <= ca {
            da
        } else {
            ca
        };
        let debts2 = if da == amt {
            debts.drop_first()
        } else {
            debts.update(0, (debts[0].0, da - amt))
        };
        let credits2 = if ca == amt {
            credits.drop_first()
        } else {
            credits.update(0, (credits[0].0, ca - amt))
        };
        let head = (debts[0].0, credits[0].0, amt);
        let rest = greedy_payments(debts2, credits2);
        assert(g == seq![head] + rest);
        if da != amt {
            lemma_sum_amts_update0(debts, (debts[0].0, da - amt));
        }
        if ca != amt {
            lemma_sum_amts_update0(credits, (credits[0].0, ca - amt));
        }
        assert forall|t: int| 0 <= t < debts2.len() implies (#[trigger] debts2[t]).1 >= 1 by {
            if da == amt {
                assert(debts2[t] == debts[t + 1]);
            }
        }
        assert forall|t: int| 0 <= t < credits2.len() implies (#[trigger] credits2[t]).1 >= 1 by {
            if ca == amt {
                assert(credits2[t] == credits[t + 1]);
            }
        }
        assert forall|t1: int, t2: int| 0 <= t1 < t2 < debts2.len() implies (#[trigger] debts2[
        t1]).0 != (#[trigger] debts2[t2]).0 by {
            if da == amt {
                assert(debts2[t1] == debts[t1 + 1]);
                assert(debts2[t2] == debts[t2 + 1]);
            } else {
                assert(debts2[t1].0 == debts[t1].0);
                assert(debts2[t2].0 == debts[t2].0);
            }
        }
        lemma_greedy_settles_debtors(debts2, credits2);
        lemma_greedy_rec_indices(debts2, credits2);
        assert forall|t: int| 0 <= t < debts.len() implies paid_total(g, (#[trigger] debts[t]).0)
            == debts[t].1 by {
            let k = debts[t].0;
            lemma_paid_total_singleton(head, k);
            lemma_paid_total_concat(seq![head], rest, k);
            if t == 0 {
                if da == amt {
                    assert forall|r: int| 0 <= r < rest.len() implies (#[trigger] rest[r]).0
                        != k by {
                        let t2 = choose|t2: int|
                            0 <= t2 < debts2.len() && debts2[t2].0 == rest[r].0;
                        assert(debts2[t2] == debts[t2 + 1]);
                    }
                    lemma_paid_total_zero(rest, k);
                } else {
                    assert(debts2[0].0 == k);
                    assert(paid_total(rest, k) == debts2[0].1);
                }
            } else {
                assert(head.0 != k);
                if da == amt {
                    assert(debts2[t - 1] == debts[t]);
                    assert(paid_total(rest, k) == debts2[t - 1].1);
                } else {
                    assert(debts2[t] == debts[t]);
                    assert(paid_total(rest, k) == debts2[t].1);
                }
            }
        }
    }
}

/// The greedy sweep never overcharges: whatever the credit side holds, the
/// records for each debtor sum to at most what that debtor owed.
pub proof fn lemma_greedy_caps_debtors(debts: Seq<(int, int)>, credits: Seq<(int, int)>)
    requires
        positive_amts(debts),
        positive_amts(credits),
        distinct_indices(debts),
    ensures
        forall|t: int|
            0 <= t < debts.len() ==> paid_total(
                greedy_payments(debts, credits),
                (#[trigger] debts[t]).0,
            ) <= debts[t].1,
    decreases debts.len() + credits.len(),
{
    let g = greedy_payments(debts, credits);
    if debts.len() == 0 || credits.len() == 0 {
        assert forall|t: int| 0 <= t < debts.len() implies paid_total(g, (#[trigger] debts[t]).0)
            <= debts[t].1 by {
            lemma_paid_total_zero(g, debts[t].0);
        }
    } else {
        let da = debts[0].1;
        let ca = credits[0].1;
        let amt = if da <= ca {
            da
        } else {
            ca
        };
        let debts2 = if da == amt {
            debts.drop_first()
        } else {
            debts.update(0, (debts[0].0, da - amt))
        };
        let credits2 = if ca == amt {
            credits.drop_first()
        } else {
            credits.update(0, (credits[0].0, ca - amt))
        };
        let head = (debts[0].0, credits[0].0, amt);
        let rest = greedy_payments(debts2, credits2);
        assert(g == seq![head] + rest);
        assert forall|t: int| 0 <= t < debts2.len() implies (#[trigger] debts2[t]).1 >= 1 by {
            if da == amt {
                assert(debts2[t] == debts[t + 1]);
            }
        }
        assert forall|t: int| 0 <= t < credits2.len() implies (#[trigger] credits2[t]).1 >= 1 by {
            if ca == amt {
                assert(credits2[t] == credits[t + 1]);
            }
        }
        assert forall|t1: int, t2: int| 0 <= t1 < t2 < debts2.len() implies (#[trigger] debts2[
        t1]).0 != (#[trigger] debts2[t2]).0 by {
            if da == amt {
                assert(debts2[t1] == debts[t1 + 1]);
                assert(debts2[t2] == debts[t2 + 1]);
            } else {
                assert(debts2[t1].0 == debts[t1].0);
                assert(debts2[t2].0 == debts[t2].0);
            }
        }
        lemma_greedy_caps_debtors(debts2, credits2);
        lemma_greedy_rec_indices(debts2, credits2);
        assert forall|t: int| 0 <= t < debts.len() implies paid_total(g, (#[trigger] debts[t]).0)
            <= debts[t].1 by {
            let k = debts[t].0;
            lemma_paid_total_singleton(head, k);
            lemma_paid_total_concat(seq![head], rest, k);
            if t == 0 {
                if da == amt {
                    assert forall|r: int| 0 <= r < rest.len() implies (#[trigger] rest[r]).0
                        != k by {
                        let t2 = choose|t2: int|
                            0 <= t2 < debts2.len() && debts2[t2].0 == rest[r].0;
                        assert(debts2[t2] == debts[t2 + 1]);
                    }
                    lemma_paid_total_zero(rest, k);
                } else {
                    assert(debts2[0].0 == k);
                    assert(paid_total(rest, k) <= debts2[0].1);
                }
            } else {
                assert(head.0 != k);
                if da == amt {
                    assert(debts2[t - 1] == debts[t]);
                    assert(paid_total(rest, k) <= debts2[t - 1].1);
                } else {
                    assert(debts2[t] == debts[t]);
                    assert(paid_total(rest, k) <= debts2[t].1);
                }
            }
        }
    }
}

/// The debtor list names its participants in strictly increasing order, so
/// no participant appears twice.
pub proof fn lemma_debts_upto_increasing(
    ps: Seq<BillSplitParticipant>,
    mode: SplitMode,
    num_people: int,
    total: int,
    n: int,
)
    requires
        0 <= n <= ps.len(),
    ensures
        forall|t1: int, t2: int|
            0 <= t1 < t2 < debts_upto(ps, mode, num_people, total, n).len() ==> (
            #[trigger] debts_upto(ps, mode, num_people, total, n)[t1]).0 < (#[trigger] debts_upto(
                ps,
                mode,
                num_people,
                total,
                n,
            )[t2]).0,
    decreases n,
{
    if n > 0 {
        lemma_debts_upto_increasing(ps, mode, num_people, total, n - 1);
        lemma_debts_upto_entries(ps, mode, num_people, total, n - 1);
        let pre = debts_upto(ps, mode, num_people, total, n - 1);
        let cur = debts_upto(ps, mode, num_people, total, n);
        assert forall|t1: int, t2: int| 0 <= t1 < t2 < cur.len() implies (#[trigger] cur[t1]).0 < (
        #[trigger] cur[t2]).0 by {
            if t2 < pre.len() {
                assert(cur[t1] == pre[t1]);
                assert(cur[t2] == pre[t2]);
            } else {
                assert(cur[t1] == pre[t1]);
                assert(good_debt_entry(ps, mode, num_people, total, n - 1, pre[t1]));
            }
        }
    }
}

/// Every participant with a negative balance stands in the debtor list with
/// the magnitude of that balance.
pub proof fn lemma_debts_upto_complete(
    ps: Seq<BillSplitParticipant>,
    mode: SplitMode,
    num_people: int,
    total: int,
    n: int,
)
    requires
        0 <= n <= ps.len(),
    ensures
        forall|k: int|
            0 <= k < n && balance_of(mode, num_people, total, #[trigger] ps[k]) < 0 ==> exists|
            t: int|
                0 <= t < debts_upto(ps, mode, num_people, total, n).len() && #[trigger] debts_upto(
                    ps,
                    mode,
                    num_people,
                    total,
                    n,
                )[t] == (k, -balance_of(mode, num_people, total, ps[k])),
    decreases n,
{
    if n > 0 {
        lemma_debts_upto_complete(ps, mode, num_people, total, n - 1);
        let pre = debts_upto(ps, mode, num_people, total, n - 1);
        let cur = debts_upto(ps, mode, num_people, total, n);
        assert forall|k: int|
            0 <= k < n && balance_of(mode, num_people, total, #[trigger] ps[k]) < 0 implies exists|
        t: int| 0 <= t < cur.len() && #[trigger] cur[t] == (
        k,
        -balance_of(mode, num_people, total, ps[k]),
        ) by {
            if k == n - 1 {
                assert(cur[cur.len() - 1] == (k, -balance_of(mode, num_people, total, ps[k])));
            } else {
                let t = choose|t: int|
                    0 <= t < pre.len() && #[trigger] pre[t] == (
                    k,
                    -balance_of(mode, num_people, total, ps[k]),
                    );
                assert(cur[t] == pre[t]);
            }
        }
    }
}

/// The balances of the first `n` participants sum to the creditor total
/// minus the debtor total: zero balances contribute to neither side.
pub proof fn lemma_partition_sums(
    ps: Seq<BillSplitParticipant>,
    mode: SplitMode,
    num_people: int,
    total: int,
    n: int,
)
    requires
        0 <= n <= ps.len(),
    ensures
        sum_balances(ps.take(n), mode, num_people, total) == sum_amts(
            credits_upto(ps, mode, num_people, total, n),
        ) - sum_amts(debts_upto(ps, mode, num_people, total, n)),
    decreases n,
{
    if n > 0 {
        lemma_partition_sums(ps, mode, num_people, total, n - 1);
        assert(ps.take(n).drop_last() =~= ps.take(n - 1));
        assert(ps.take(n).last() == ps[n - 1]);
        let b = balance_of(mode, num_people, total, ps[n - 1]);
        if b < 0 {
            lemma_sum_amts_push(debts_upto(ps, mode, num_people, total, n - 1), (n - 1, -b));
        } else if b > 0 {
            lemma_sum_amts_push(credits_upto(ps, mode, num_people, total, n - 1), (n - 1, b));
        }
    }
}

/// When the balances sum to at least zero (the creditors can absorb all the
/// debt), every debtor's payments sum to exactly the magnitude of its
/// balance. The assembled row carries these payments with the same amounts.
pub proof fn lemma_debtors_fully_settled(s: BillSplitState)
    requires
        state_wf(s),
        sum_balances(
            s.participants@,
            s.split_mode,
            s.num_people as int,
            sum_paid(s.participants@),
        ) >= 0,
    ensures
        forall|k: int|
            0 <= k < s.participants@.len() && balance_of(
                s.split_mode,
                s.num_people as int,
                sum_paid(s.participants@),
                #[trigger] s.participants@[k],
            ) < 0 ==> pay_sum(payments_for(recs_of(s), k)) == -balance_of(
                s.split_mode,
                s.num_people as int,
                sum_paid(s.participants@),
                s.participants@[k],
            ),
{
    let ps = s.participants@;
    let mode = s.split_mode;
    let np = s.num_people as int;
    let total = sum_paid(ps);
    let n = ps.len() as int;
    let dseq = debts_upto(ps, mode, np, total, n);
    let cseq = credits_upto(ps, mode, np, total, n);
    lemma_debts_upto_entries(ps, mode, np, total, n);
    lemma_credits_upto_entries(ps, mode, np, total, n);
    lemma_debts_upto_increasing(ps, mode, np, total, n);
    lemma_debts_upto_complete(ps, mode, np, total, n);
    lemma_partition_sums(ps, mode, np, total, n);
    assert(ps.take(n) =~= ps);
    lemma_greedy_settles_debtors(dseq, cseq);
    assert forall|k: int|
        0 <= k < n && balance_of(mode, np, total, #[trigger] ps[k]) < 0 implies pay_sum(
        payments_for(recs_of(s), k),
    ) == -balance_of(mode, np, total, ps[k]) by {
        let t = choose|t: int|
            0 <= t < dseq.len() && #[trigger] dseq[t] == (k, -balance_of(mode, np, total, ps[k]));
        assert(paid_total(greedy_payments(dseq, cseq), dseq[t].0) == dseq[t].1);
        lemma_pay_sum_payments_for(recs_of(s), k);
    }
}

/// On every input, a debtor's payments sum to at most the magnitude of its
/// balance: when the creditors cannot absorb all the debt, the shortfall only
/// ever leaves a debtor paying less, never more.
pub proof fn lemma_debtor_payments_capped(s: BillSplitState)
    requires
        state_wf(s),
    ensures
        forall|k: int|
            0 <= k < s.participants@.len() && balance_of(
                s.split_mode,
                s.num_people as int,
                sum_paid(s.participants@),
                #[trigger] s.participants@[k],
            ) < 0 ==> pay_sum(payments_for(recs_of(s), k)) <= -balance_of(
                s.split_mode,
                s.num_people as int,
                sum_paid(s.participants@),
                s.participants@[k],
            ),
{
    let ps = s.participants@;
    let mode = s.split_mode;
    let np = s.num_people as int;
    let total = sum_paid(ps);
    let n = ps.len() as int;
    let dseq = debts_upto(ps, mode, np, total, n);
    let cseq = credits_upto(ps, mode, np, total, n);
    lemma_debts_upto_entries(ps, mode, np, total, n);
    lemma_credits_upto_entries(ps, mode, np, total, n);
    lemma_debts_upto_increasing(ps, mode, np, total, n);
    lemma_debts_upto_complete(ps, mode, np, total, n);
    lemma_greedy_caps_debtors(dseq, cseq);
    assert forall|k: int|
        0 <= k < n && balance_of(mode, np, total, #[trigger] ps[k]) < 0 implies pay_sum(
        payments_for(recs_of(s), k),
    ) <= -balance_of(mode, np, total, ps[k]) by {
        let t = choose|t: int|
            0 <= t < dseq.len() && #[trigger] dseq[t] == (k, -balance_of(mode, np, total, ps[k]));
        assert(paid_total(greedy_payments(dseq, cseq), dseq[t].0) <= dseq[t].1);
        lemma_pay_sum_payments_for(recs_of(s), k);
    }
}

/// A participant whose balance is not negative never pays: its payment list
/// is empty, so only debtor rows carry payments.
pub proof fn lemma_non_debtors_pay_nothing(s: BillSplitState)
    requires
        state_wf(s),
    ensures
        forall|k: int|
            0 <= k < s.participants@.len() && balance_of(
                s.split_mode,
                s.num_people as int,
                sum_paid(s.participants@),
                #[trigger] s.participants@[k],
            ) >= 0 ==> payments_for(recs_of(s), k) == Seq::<(int, int)>::empty(),
{
    let ps = s.participants@;
    let mode = s.split_mode;
    let np = s.num_people as int;
    let total = sum_paid(ps);
    let n = ps.len() as int;
    let dseq = debts_upto(ps, mode, np, total, n);
    let cseq = credits_upto(ps, mode, np, total, n);
    lemma_debts_upto_entries(ps, mode, np, total, n);
    lemma_greedy_rec_indices(dseq, cseq);
    assert forall|k: int|
        0 <= k < n && balance_of(mode, np, total, #[trigger] ps[k]) >= 0 implies payments_for(
        recs_of(s),
        k,
    ) == Seq::<(int, int)>::empty() by {
        let g = greedy_payments(dseq, cseq);
        assert forall|r: int| 0 <= r < g.len() implies (#[trigger] g[r]).0 != k by {
            let t = choose|t: int| 0 <= t < dseq.len() && dseq[t].0 == g[r].0;
            assert(good_debt_entry(ps, mode, np, total, n, dseq[t]));
        }
        lemma_payments_for_empty(g, k);
    }
}

/// Whatever the lists hold, the greedy sweep only emits records for heads
/// that still carry at least one cent on both sides.
pub proof fn lemma_greedy_amounts_positive(debts: Seq<(int, int)>, credits: Seq<(int, int)>)
    ensures
        forall|r: int|
            0 <= r < greedy_payments(debts, credits).len() ==> (#[trigger] greedy_payments(
                debts,
                credits,
            )[r]).2 >= 1,
    decreases debts.len() + credits.len(),
{
    let g = greedy_payments(debts, credits);
    if debts.len() == 0 || credits.len() == 0 {
    } else {
        let da = debts[0].1;
        let ca = credits[0].1;
        if da <= 0 {
            lemma_greedy_amounts_positive(debts.drop_first(), credits);
            assert(g == greedy_payments(debts.drop_first(), credits));
            assert forall|r: int| 0 <= r < g.len() implies (#[trigger] g[r]).2 >= 1 by {
                assert(g[r] == greedy_payments(debts.drop_first(), credits)[r]);
            }
        } else if ca <= 0 {
            lemma_greedy_amounts_positive(debts, credits.drop_first());
            assert(g == greedy_payments(debts, credits.drop_first()));
            assert forall|r: int| 0 <= r < g.len() implies (#[trigger] g[r]).2 >= 1 by {
                assert(g[r] == greedy_payments(debts, credits.drop_first())[r]);
            }
        } else {
            let amt = if da <= ca {
                da
            } else {
                ca
            };
            let debts2 = if da == amt {
                debts.drop_first()
            } else {
                debts.update(0, (debts[0].0, da - amt))
            };
            let credits2 = if ca == amt {
                credits.drop_first()
            } else {
                credits.update(0, (credits[0].0, ca - amt))
            };
            let rest = greedy_payments(debts2, credits2);
            lemma_greedy_amounts_positive(debts2, credits2);
            assert(g == seq![(debts[0].0, credits[0].0, amt)] + rest);
            assert forall|r: int| 0 <= r < g.len() implies (#[trigger] g[r]).2 >= 1 by {
                if r > 0 {
                    assert(g[r] == rest[r - 1]);
                    assert(rest[r - 1] == greedy_payments(debts2, credits2)[r - 1]);
                }
            }
        }
    }
}

/// A row's payments keep the amounts of the records they come from.
pub proof fn lemma_payments_for_amounts(recs: Seq<(int, int, int)>, k: int)
    requires
        forall|t: int| 0 <= t < recs.len() ==> (#[trigger] recs[t]).2 >= 1,
    ensures
        forall|q: int|
            0 <= q < payments_for(recs, k).len() ==> (#[trigger] payments_for(recs, k)[q]).1 >= 1,
    decreases recs.len(),
{
    if recs.len() > 0 {
        lemma_payments_for_amounts(recs.drop_last(), k);
        let pre = payments_for(recs.drop_last(), k);
        let cur = payments_for(recs, k);
        assert forall|q: int| 0 <= q < cur.len() implies (#[trigger] cur[q]).1 >= 1 by {
            if q < pre.len() {
                assert(cur[q] == pre[q]);
            }
        }
    }
}

/// Every payment instruction carries a positive amount: the sweep never
/// emits a zero or negative payment.
pub proof fn lemma_payment_amounts_positive(s: BillSplitState)
    requires
        state_wf(s),
    ensures
        forall|k: int, q: int|
            0 <= k < s.participants@.len() && 0 <= q < payments_for(recs_of(s), k).len() ==> (
            #[trigger] payments_for(recs_of(s), k)[q]).1 >= 1,
{
    let ps = s.participants@;
    let mode = s.split_mode;
    let np = s.num_people as int;
    let total = sum_paid(ps);
    let n = ps.len() as int;
    lemma_greedy_amounts_positive(
        debts_upto(ps, mode, np, total, n),
        credits_upto(ps, mode, np, total, n),
    );
    assert forall|k: int, q: int|
        0 <= k < n && 0 <= q < payments_for(recs_of(s), k).len() implies (#[trigger] payments_for(
        recs_of(s),
        k,
    )[q]).1 >= 1 by {
        lemma_payments_for_amounts(recs_of(s), k);
    }
}

/// The calculation is a function of its input alone: two results for the same
/// input are the same error or rows with the same mathematical value.
pub proof fn lemma_calculate_deterministic(
    s: BillSplitState,
    r1: Result<Vec<SplitResult>, CalcError>,
    r2: Result<Vec<SplitResult>, CalcError>,
)
    requires
        calc_post(s, r1),
        calc_post(s, r2),
    ensures
        r1 is Ok <==> r2 is Ok,
        r1 is Err ==> r2 is Err && r1->Err_0 == r2->Err_0,
        r1 is Ok && r2 is Ok ==> rows_view(r1->Ok_0@) == rows_view(r2->Ok_0@),
{
}

} // verus!
