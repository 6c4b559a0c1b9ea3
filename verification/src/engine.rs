//! The settlement engine: share computation under the split policies, balance
//! derivation, the greedy debtor-creditor matching, and the assembly of one
//! result row per participant.
//!
//! The whole computation is specified by a mathematical model: `spec_rows`
//! gives the exact output rows for a request, and `calculate` is proved to
//! return exactly them (or the right error).

use vstd::prelude::*;
use crate::models::{
    BillSplitParticipant, BillSplitState, CalcError, Payment, SplitMode, SplitResult,
    participant_wf, pct_or_zero, state_wf, MAX_AMOUNT_CENTS, MAX_PERCENT_BP, PERCENT_SCALE,
    PERCENT_TOLERANCE_BP,
};
use crate::rounding::{round_div, round_div_exec, lemma_round_div_bound};

verus! {

/// Bound, in cents, on the magnitude of every computed share and balance.
pub const SHARE_BOUND: i64 = 1_000_000_000_000_000_000;

/// Bound on the magnitude of the total paid: the largest single amount times
/// the largest participant count.
pub const TOTAL_BOUND: i64 = 10_000_000_000_000_000;

/// Bound on the magnitude of a percentage-share numerator: the total bound
/// times the largest percentage.
pub const PCT_NUMERATOR_BOUND: i128 = 10_000_000_000_000_000_000_000;

/// Sum of the paid amounts, in input order.
pub open spec fn sum_paid(ps: Seq<BillSplitParticipant>) -> int
    decreases ps.len(),
{
    if ps.len() == 0 {
        0
    } else {
        sum_paid(ps.drop_last()) + ps.last().paid
    }
}

/// Sum of the percentages (absent treated as zero), in basis points.
pub open spec fn sum_pct(ps: Seq<BillSplitParticipant>) -> int
    decreases ps.len(),
{
    if ps.len() == 0 {
        0
    } else {
        sum_pct(ps.drop_last()) + pct_or_zero(ps.last())
    }
}

/// The percentage-mode validation: the percentages sum to 100% within the
/// tolerance.
pub open spec fn pct_sum_ok(ps: Seq<BillSplitParticipant>) -> bool {
    -PERCENT_TOLERANCE_BP <= sum_pct(ps) - PERCENT_SCALE <= PERCENT_TOLERANCE_BP
}

/// The share of one participant, in cents, rounded to the nearest cent.
pub open spec fn share_of(
    mode: SplitMode,
    num_people: int,
    total: int,
    p: BillSplitParticipant,
) -> int {
    match mode {
        SplitMode::Equal => round_div(total, num_people),
        SplitMode::Percentage => round_div(total * pct_or_zero(p), PERCENT_SCALE as int),
        SplitMode::Solo => if p.is_payer == Some(true) {
            total
        } else {
            0
        },
        SplitMode::Other => 0,
    }
}

/// The net balance of one participant: what they paid minus their share.
pub open spec fn balance_of(
    mode: SplitMode,
    num_people: int,
    total: int,
    p: BillSplitParticipant,
) -> int {
    p.paid - share_of(mode, num_people, total, p)
}

/// The debtors among the first `n` participants, in input order: pairs of the
/// participant's index and the positive amount they owe.
pub open spec fn debts_upto(
    ps: Seq<BillSplitParticipant>,
    mode: SplitMode,
    num_people: int,
    total: int,
    n: int,
) -> Seq<(int, int)>
    decreases n,
{
    if n <= 0 {
        Seq::empty()
    } else {
        let pre = debts_upto(ps, mode, num_people, total, n - 1);
        let b = balance_of(mode, num_people, total, ps[n - 1]);
        if b < 0 {
            pre.push((n - 1, -b))
        } else {
            pre
        }
    }
}

/// The creditors among the first `n` participants, in input order: pairs of
/// the participant's index and the positive amount they are owed.
pub open spec fn credits_upto(
    ps: Seq<BillSplitParticipant>,
    mode: SplitMode,
    num_people: int,
    total: int,
    n: int,
) -> Seq<(int, int)>
    decreases n,
{
    if n <= 0 {
        Seq::empty()
    } else {
        let pre = credits_upto(ps, mode, num_people, total, n - 1);
        let b = balance_of(mode, num_people, total, ps[n - 1]);
        if b > 0 {
            pre.push((n - 1, b))
        } else {
            pre
        }
    }
}

/// All debtors of a request.
pub open spec fn debts_of(s: BillSplitState) -> Seq<(int, int)> {
    debts_upto(
        s.participants@,
        s.split_mode,
        s.num_people as int,
        sum_paid(s.participants@),
        s.participants@.len() as int,
    )
}

/// All creditors of a request.
pub open spec fn credits_of(s: BillSplitState) -> Seq<(int, int)> {
    credits_upto(
        s.participants@,
        s.split_mode,
        s.num_people as int,
        sum_paid(s.participants@),
        s.participants@.len() as int,
    )
}

/// The greedy two-pointer matching over debtor and creditor lists. Each
/// emitted record is (debtor index, creditor index, amount): the head debtor
/// pays the head creditor the smaller of the two remaining amounts, and
/// whichever side reaches zero is dropped (both on an exact match).
/// Non-positive remaining amounts are dropped without a payment; the engine
/// never produces them.
pub open spec fn greedy_payments(debts: Seq<(int, int)>, credits: Seq<(int, int)>) -> Seq<
    (int, int, int),
>
    decreases debts.len() + credits.len(),
{
    if debts.len() == 0 || credits.len() == 0 {
        Seq::empty()
    } else {
        let da = debts[0].1;
        let ca = credits[0].1;
        if da <= 0 {
            greedy_payments(debts.drop_first(), credits)
        } else if ca <= 0 {
            greedy_payments(debts, credits.drop_first())
        } else {
            let amt = if da <= ca {
                da
            } else {
                ca
            };
            let debts2 = if da == amt {
                debts.drop_first()
            } else {
                debts.update(0, (debts[0].0, da - amt))
            };
            let credits2 = if ca == amt {
                credits.drop_first()
            } else {
                credits.update(0, (credits[0].0, ca - amt))
            };
            seq![(debts[0].0, credits[0].0, amt)] + greedy_payments(debts2, credits2)
        }
    }
}

/// The payment records of the whole request.
pub open spec fn recs_of(s: BillSplitState) -> Seq<(int, int, int)> {
    greedy_payments(debts_of(s), credits_of(s))
}

/// The payments that participant `k` makes: the records with debtor index
/// `k`, in emission order, as (creditor index, amount) pairs.
pub open spec fn payments_for(recs: Seq<(int, int, int)>, k: int) -> Seq<(int, int)>
    decreases recs.len(),
{
    if recs.len() == 0 {
        Seq::empty()
    } else {
        let pre = payments_for(recs.drop_last(), k);
        let r = recs.last();
        if r.0 == k {
            pre.push((r.1, r.2))
        } else {
            pre
        }
    }
}

/// The model of one output payment: the target's name and the amount.
pub open spec fn payment_view(p: Payment) -> (Seq<char>, int) {
    (p.to@, p.amount as int)
}

/// The model of one output row: name, paid, share, balance and payments.
pub open spec fn row_view(r: SplitResult) -> (Seq<char>, int, int, int, Seq<(Seq<char>, int)>) {
    (r.name@, r.paid as int, r.share as int, r.balance as int, r.payments@.map_values(
        |p: Payment| payment_view(p),
    ))
}

/// The model of the whole output.
pub open spec fn rows_view(v: Seq<SplitResult>) -> Seq<
    (Seq<char>, int, int, int, Seq<(Seq<char>, int)>),
> {
    v.map_values(|r: SplitResult| row_view(r))
}

/// The row the model prescribes for participant `k`.
pub open spec fn spec_row(s: BillSplitState, k: int) -> (
    Seq<char>,
    int,
    int,
    int,
    Seq<(Seq<char>, int)>,
) {
    let ps = s.participants@;
    let total = sum_paid(ps);
    let share = share_of(s.split_mode, s.num_people as int, total, ps[k]);
    (
        ps[k].name@,
        ps[k].paid as int,
        share,
        ps[k].paid - share,
        payments_for(recs_of(s), k).map_values(|e: (int, int)| (ps[e.0].name@, e.1)),
    )
}

/// The full output the model prescribes: one row per participant, in order.
pub open spec fn spec_rows(s: BillSplitState) -> Seq<
    (Seq<char>, int, int, int, Seq<(Seq<char>, int)>),
> {
    Seq::new(s.participants@.len(), |k: int| spec_row(s, k))
}

/// The whole contract of `calculate`: which error comes on which input, if
/// and only if, and that a successful result is exactly the model's rows.
pub open spec fn calc_post(s: BillSplitState, r: Result<Vec<SplitResult>, CalcError>) -> bool {
    &&& ((r matches Err(CalcError::NoParticipants)) <==> s.participants@.len() == 0)
    &&& ((r matches Err(CalcError::BadPercentSum)) <==> (s.participants@.len() > 0
        && s.split_mode is Percentage && !pct_sum_ok(s.participants@)))
    &&& ((r is Ok) <==> (s.participants@.len() > 0 && (s.split_mode is Percentage
        ==> pct_sum_ok(s.participants@))))
    &&& (r matches Ok(rows) ==> rows_view(rows@) == spec_rows(s))
}

/// The mathematical value of an executable (index, amount) list.
pub open spec fn pairs_view(s: Seq<(usize, i64)>) -> Seq<(int, int)> {
    s.map_values(|e: (usize, i64)| (e.0 as int, e.1 as int))
}

/// The mathematical value of an executable payment-record list.
pub open spec fn recs_view(s: Seq<(usize, usize, i64)>) -> Seq<(int, int, int)> {
    s.map_values(|e: (usize, usize, i64)| (e.0 as int, e.1 as int, e.2 as int))
}

/// The debtor (or creditor) list as the greedy sweep sees it when the head
/// pointer stands at `i` with `rem` cents still unsettled on entry `i`.
pub open spec fn tail_with(s: Seq<(int, int)>, i: int, rem: int) -> Seq<(int, int)> {
    if 0 <= i < s.len() {
        s.skip(i).update(0, (s[i].0, rem))
    } else {
        Seq::empty()
    }
}

/// What holds of every debtor entry: an in-range participant index with a
/// strictly negative balance, owing exactly the balance's magnitude.
pub open spec fn good_debt_entry(
    ps: Seq<BillSplitParticipant>,
    mode: SplitMode,
    num_people: int,
    total: int,
    n: int,
    e: (int, int),
) -> bool {
    &&& 0 <= e.0 < n
    &&& 1 <= e.1
    &&& balance_of(mode, num_people, total, ps[e.0]) < 0
    &&& e.1 == -balance_of(mode, num_people, total, ps[e.0])
}

/// What holds of every creditor entry: an in-range participant index with a
/// strictly positive balance, owed exactly the balance.
pub open spec fn good_credit_entry(
    ps: Seq<BillSplitParticipant>,
    mode: SplitMode,
    num_people: int,
    total: int,
    n: int,
    e: (int, int),
) -> bool {
    &&& 0 <= e.0 < n
    &&& 1 <= e.1
    &&& balance_of(mode, num_people, total, ps[e.0]) > 0
    &&& e.1 == balance_of(mode, num_people, total, ps[e.0])
}

pub proof fn lemma_debts_upto_entries(
    ps: Seq<BillSplitParticipant>,
    mode: SplitMode,
    num_people: int,
    total: int,
    n: int,
)
    requires
        0 <= n <= ps.len(),
    ensures
        forall|t: int|
            0 <= t < debts_upto(ps, mode, num_people, total, n).len() ==> good_debt_entry(
                ps,
                mode,
                num_people,
                total,
                n,
                #[trigger] debts_upto(ps, mode, num_people, total, n)[t],
            ),
    decreases n,
{
    if n > 0 {
        lemma_debts_upto_entries(ps, mode, num_people, total, n - 1);
        let pre = debts_upto(ps, mode, num_people, total, n - 1);
        let cur = debts_upto(ps, mode, num_people, total, n);
        assert forall|t: int| 0 <= t < cur.len() implies good_debt_entry(
            ps,
            mode,
            num_people,
            total,
            n,
            cur[t],
        ) by {
            if t < pre.len() {
                assert(cur[t] == pre[t]);
                assert(good_debt_entry(ps, mode, num_people, total, n - 1, pre[t]));
            }
        }
    }
}

pub proof fn lemma_credits_upto_entries(
    ps: Seq<BillSplitParticipant>,
    mode: SplitMode,
    num_people: int,
    total: int,
    n: int,
)
    requires
        0 <= n <= ps.len(),
    ensures
        forall|t: int|
            0 <= t < credits_upto(ps, mode, num_people, total, n).len() ==> good_credit_entry(
                ps,
                mode,
                num_people,
                total,
                n,
                #[trigger] credits_upto(ps, mode, num_people, total, n)[t],
            ),
    decreases n,
{
    if n > 0 {
        lemma_credits_upto_entries(ps, mode, num_people, total, n - 1);
        let pre = credits_upto(ps, mode, num_people, total, n - 1);
        let cur = credits_upto(ps, mode, num_people, total, n);
        assert forall|t: int| 0 <= t < cur.len() implies good_credit_entry(
            ps,
            mode,
            num_people,
            total,
            n,
            cur[t],
        ) by {
            if t < pre.len() {
                assert(cur[t] == pre[t]);
                assert(good_credit_entry(ps, mode, num_people, total, n - 1, pre[t]));
            }
        }
    }
}

/// One step of the greedy sweep, seen through `tail_with`: with the head
/// debtor owing `da` and the head creditor owed `ca`, the sweep emits the
/// smaller amount and the pointers and remainders move as the loop moves
/// them.
pub proof fn lemma_greedy_loop_step(
    d: Seq<(int, int)>,
    c: Seq<(int, int)>,
    i: int,
    j: int,
    da: int,
    ca: int,
)
    requires
        0 <= i < d.len(),
        0 <= j < c.len(),
        1 <= da,
        1 <= ca,
    ensures
        ({
            let amt = if da <= ca {
                da
            } else {
                ca
            };
            let ni = if da == amt {
                i + 1
            } else {
                i
            };
            let nda = if da == amt {
                if i + 1 < d.len() {
                    d[i + 1].1
                } else {
                    0
                }
            } else {
                da - amt
            };
            let nj = if ca == amt {
                j + 1
            } else {
                j
            };
            let nca = if ca == amt {
                if j + 1 < c.len() {
                    c[j + 1].1
                } else {
                    0
                }
            } else {
                ca - amt
            };
            greedy_payments(tail_with(d, i, da), tail_with(c, j, ca)) == seq![
                (d[i].0, c[j].0, amt),
            ] + greedy_payments(tail_with(d, ni, nda), tail_with(c, nj, nca))
        }),
{
    let d1 = tail_with(d, i, da);
    let c1 = tail_with(c, j, ca);
    let amt = if da <= ca {
        da
    } else {
        ca
    };
    assert(d1[0] == (d[i].0, da));
    assert(c1[0] == (c[j].0, ca));
    let d2 = if da == amt {
        d1.drop_first()
    } else {
        d1.update(0, (d1[0].0, da - amt))
    };
    let c2 = if ca == amt {
        c1.drop_first()
    } else {
        c1.update(0, (c1[0].0, ca - amt))
    };
    assert(greedy_payments(d1, c1) == seq![(d[i].0, c[j].0, amt)] + greedy_payments(d2, c2));
    if da == amt {
        if i + 1 < d.len() {
            assert(d2 =~= tail_with(d, i + 1, d[i + 1].1));
        } else {
            assert(d2 =~= tail_with(d, i + 1, 0));
        }
    } else {
        assert(d2 =~= tail_with(d, i, da - amt));
    }
    if ca == amt {
        if j + 1 < c.len() {
            assert(c2 =~= tail_with(c, j + 1, c[j + 1].1));
        } else {
            assert(c2 =~= tail_with(c, j + 1, 0));
        }
    } else {
        assert(c2 =~= tail_with(c, j, ca - amt));
    }
}

/// The settlement calculation: validates the request, computes shares and
/// balances, runs the greedy matching, and assembles one row per
/// participant. The result is exactly what the mathematical model
/// (`spec_rows`) prescribes, and an error comes if and only if the input is
/// empty or the percentages fail their check.
///
/// Payments are attached to rows by participant position, not by name, so
/// two participants who share a name keep their own rows and their own
/// payments.
#[verifier::loop_isolation(false)]
pub fn calculate(state: &BillSplitState) -> (r: Result<Vec<SplitResult>, CalcError>)
    requires
        state_wf(*state),
    ensures
        calc_post(*state, r),
{
    let ghost ps = state.participants@;
    let ghost mode = state.split_mode;
    let ghost np = state.num_people as int;
    let n: usize = state.participants.len();
    if n == 0 {
        return Err(CalcError::NoParticipants);
    }
    // Total paid across all participants, in input order.
    let mut total: i64 = 0;
    let mut idx: usize = 0;
    while idx < n
        invariant
            0 <= idx <= n,
            total == sum_paid(ps.take(idx as int)),
            -(idx as int) * (MAX_AMOUNT_CENTS as int) <= total as int,
            total as int <= (idx as int) * (MAX_AMOUNT_CENTS as int),
        decreases n - idx,
    {
        proof {
            assert(ps.take(idx as int + 1).drop_last() =~= ps.take(idx as int));
            assert(participant_wf(ps[idx as int]));
        }
        total = total + state.participants[idx].paid;
        idx = idx + 1;
    }
    proof {
        assert(ps.take(n as int) =~= ps);
    }
    let ghost total_s = sum_paid(ps);
    // Percentage mode: the percentages must sum to 100% within tolerance.
    if state.split_mode == SplitMode::Percentage {
        let mut pct_sum: i64 = 0;
        let mut idx2: usize = 0;
        while idx2 < n
            invariant
                0 <= idx2 <= n,
                pct_sum == sum_pct(ps.take(idx2 as int)),
                -(idx2 as int) * (MAX_PERCENT_BP as int) <= pct_sum as int,
                pct_sum as int <= (idx2 as int) * (MAX_PERCENT_BP as int),
            decreases n - idx2,
        {
            proof {
                assert(ps.take(idx2 as int + 1).drop_last() =~= ps.take(idx2 as int));
                assert(participant_wf(ps[idx2 as int]));
            }
            let p_pct: i64 = match state.participants[idx2].percentage {
                Some(v) => v,
                None => 0,
            };
            pct_sum = pct_sum + p_pct;
            idx2 = idx2 + 1;
        }
        proof {
            assert(ps.take(n as int) =~= ps);
        }
        if pct_sum < PERCENT_SCALE - PERCENT_TOLERANCE_BP || pct_sum > PERCENT_SCALE
            + PERCENT_TOLERANCE_BP {
            return Err(CalcError::BadPercentSum);
        }
    }
    // Shares, one per participant, rounded to the nearest cent.
    let mut shares: Vec<i64> = Vec::new();
    let mut k: usize = 0;
    while k < n
        invariant
            0 <= k <= n,
            shares@.len() == k,
            forall|i: int| 0 <= i < k ==> #[trigger] shares@[i] as int == share_of(
                mode,
                np,
                total_s,
                ps[i],
            ),
            forall|i: int| 0 <= i < k ==> -SHARE_BOUND <= #[trigger] shares@[i] <= SHARE_BOUND,
        decreases n - k,
    {
        proof {
            assert(participant_wf(ps[k as int]));
        }
        let s64: i64 = match state.split_mode {
            SplitMode::Equal => {
                proof {
                    assert((TOTAL_BOUND as int) <= (TOTAL_BOUND as int) * np)
                        by (nonlinear_arith)
                        requires
                            np >= 1,
                    ;
                    lemma_round_div_bound(total as int, np, TOTAL_BOUND as int);
                }
                let q: i128 = round_div_exec(total as i128, state.num_people as i128);
                q as i64
            },
            SplitMode::Percentage => {
                let pct: i64 = match state.participants[k].percentage {
                    Some(v) => v,
                    None => 0,
                };
                proof {
                    assert(-(PCT_NUMERATOR_BOUND as int) <= (total as int) * (pct as int) <= (
                    PCT_NUMERATOR_BOUND as int)) by (nonlinear_arith)
                        requires
                            -(TOTAL_BOUND as int) <= total as int <= (TOTAL_BOUND as int),
                            -(MAX_PERCENT_BP as int) <= pct as int <= (MAX_PERCENT_BP as int),
                    ;
                }
                let prod: i128 = (total as i128) * (pct as i128);
                proof {
                    lemma_round_div_bound(prod as int, PERCENT_SCALE as int, SHARE_BOUND as int);
                }
                let q: i128 = round_div_exec(prod, PERCENT_SCALE as i128);
                q as i64
            },
            SplitMode::Solo => {
                let ispay: bool = match state.participants[k].is_payer {
                    Some(v) => v,
                    None => false,
                };
                if ispay {
                    total
                } else {
                    0
                }
            },
            SplitMode::Other => 0,
        };
        shares.push(s64);
        k = k + 1;
    }
    // Balances: paid minus share, exact in cents.
    let mut balances: Vec<i64> = Vec::new();
    k = 0;
    while k < n
        invariant
            0 <= k <= n,
            balances@.len() == k,
            forall|i: int| 0 <= i < k ==> #[trigger] balances@[i] as int == balance_of(
                mode,
                np,
                total_s,
                ps[i],
            ),
            forall|i: int|
                0 <= i < k ==> -(SHARE_BOUND + MAX_AMOUNT_CENTS) <= #[trigger] balances@[i]
                    <= SHARE_BOUND + MAX_AMOUNT_CENTS,
        decreases n - k,
    {
        proof {
            assert(participant_wf(ps[k as int]));
        }
        let b: i64 = state.participants[k].paid - shares[k];
        balances.push(b);
        k = k + 1;
    }
    // Partition into debtors and creditors, preserving input order.
    let mut debtors: Vec<(usize, i64)> = Vec::new();
    let mut creditors: Vec<(usize, i64)> = Vec::new();
    k = 0;
    while k < n
        invariant
            0 <= k <= n,
            pairs_view(debtors@) == debts_upto(ps, mode, np, total_s, k as int),
            pairs_view(creditors@) == credits_upto(ps, mode, np, total_s, k as int),
        decreases n - k,
    {
        let b: i64 = balances[k];
        if b < 0 {
            let ghost before = debtors@;
            debtors.push((k, -b));
            proof {
                assert(pairs_view(debtors@) =~= pairs_view(before).push(
                    (k as int, -(b as int)),
                ));
            }
        } else if b > 0 {
            let ghost before = creditors@;
            creditors.push((k, b));
            proof {
                assert(pairs_view(creditors@) =~= pairs_view(before).push((k as int, b as int)));
            }
        }
        k = k + 1;
    }
    let ghost dseq = debts_upto(ps, mode, np, total_s, n as int);
    let ghost cseq = credits_upto(ps, mode, np, total_s, n as int);
    proof {
        lemma_debts_upto_entries(ps, mode, np, total_s, n as int);
        lemma_credits_upto_entries(ps, mode, np, total_s, n as int);
        assert forall|t: int| 0 <= t < debtors@.len() implies (#[trigger] debtors@[t]).0 < n && 1
            <= debtors@[t].1 by {
            assert(dseq[t] == (debtors@[t].0 as int, debtors@[t].1 as int));
            assert(good_debt_entry(ps, mode, np, total_s, n as int, dseq[t]));
        }
        assert forall|t: int| 0 <= t < creditors@.len() implies (#[trigger] creditors@[t]).0 < n
            && 1 <= creditors@[t].1 by {
            assert(cseq[t] == (creditors@[t].0 as int, creditors@[t].1 as int));
            assert(good_credit_entry(ps, mode, np, total_s, n as int, cseq[t]));
        }
    }
    let recs: Vec<(usize, usize, i64)> = greedy_match(&debtors, &creditors, Ghost(n as int));
    proof {
        assert(dseq == debts_of(*state));
        assert(cseq == credits_of(*state));
        assert(recs_view(recs@) == recs_of(*state));
    }
    let results: Vec<SplitResult> = assemble_rows(state, &shares, &balances, &recs);
    Ok(results)
}

/// The greedy two-pointer sweep: while a debtor and a creditor remain, the
/// head debtor pays the head creditor the smaller of the two remaining
/// amounts, and each side whose remainder reaches zero advances. `n` bounds
/// the participant indices the entries carry.
#[verifier::loop_isolation(false)]
fn greedy_match(
    debtors: &Vec<(usize, i64)>,
    creditors: &Vec<(usize, i64)>,
    Ghost(n): Ghost<int>,
) -> (recs: Vec<(usize, usize, i64)>)
    requires
        forall|t: int|
            0 <= t < debtors@.len() ==> (#[trigger] debtors@[t]).0 < n && 1 <= debtors@[t].1,
        forall|t: int|
            0 <= t < creditors@.len() ==> (#[trigger] creditors@[t]).0 < n && 1
                <= creditors@[t].1,
    ensures
        recs_view(recs@) == greedy_payments(pairs_view(debtors@), pairs_view(creditors@)),
        forall|t: int|
            0 <= t < recs@.len() ==> (#[trigger] recs@[t]).0 < n && recs@[t].1 < n && 1
                <= recs@[t].2,
{
    let ghost dseq = pairs_view(debtors@);
    let ghost cseq = pairs_view(creditors@);
    proof {
        assert forall|t: int| 0 <= t < dseq.len() implies (#[trigger] dseq[t]).0 < n && 1
            <= dseq[t].1 && dseq[t] == (debtors@[t].0 as int, debtors@[t].1 as int) by {}
        assert forall|t: int| 0 <= t < cseq.len() implies (#[trigger] cseq[t]).0 < n && 1
            <= cseq[t].1 && cseq[t] == (creditors@[t].0 as int, creditors@[t].1 as int) by {}
    }
    let dn: usize = debtors.len();
    let cn: usize = creditors.len();
    let mut recs: Vec<(usize, usize, i64)> = Vec::new();
    let mut i: usize = 0;
    let mut j: usize = 0;
    let mut damt: i64 = if dn > 0 {
        debtors[0].1
    } else {
        0
    };
    let mut camt: i64 = if cn > 0 {
        creditors[0].1
    } else {
        0
    };
    proof {
        if dn > 0 {
            assert(tail_with(dseq, 0, damt as int) =~= dseq);
        }
        if cn > 0 {
            assert(tail_with(cseq, 0, camt as int) =~= cseq);
        }
        assert(recs_view(recs@) + greedy_payments(
            tail_with(dseq, 0, damt as int),
            tail_with(cseq, 0, camt as int),
        ) =~= greedy_payments(dseq, cseq));
    }
    while i < dn && j < cn
        invariant
            0 <= i <= dn,
            0 <= j <= cn,
            i < dn ==> 1 <= damt && damt as int <= dseq[i as int].1,
            j < cn ==> 1 <= camt && camt as int <= cseq[j as int].1,
            forall|t: int|
                0 <= t < recs@.len() ==> (#[trigger] recs@[t]).0 < n && recs@[t].1 < n && 1
                    <= recs@[t].2,
            recs_view(recs@) + greedy_payments(
                tail_with(dseq, i as int, damt as int),
                tail_with(cseq, j as int, camt as int),
            ) == greedy_payments(dseq, cseq),
        decreases dn - i + cn - j,
    {
        let di: usize = debtors[i].0;
        let ci: usize = creditors[j].0;
        let amt: i64 = if damt <= camt {
            damt
        } else {
            camt
        };
        let ghost recs_before = recs@;
        recs.push((di, ci, amt));
        let drem: i64 = damt - amt;
        let crem: i64 = camt - amt;
        let ghost ni = if drem == 0 {
            i as int + 1
        } else {
            i as int
        };
        let ghost nda = if drem == 0 {
            if i as int + 1 < dn as int {
                dseq[i as int + 1].1
            } else {
                0
            }
        } else {
            drem as int
        };
        let ghost nj = if crem == 0 {
            j as int + 1
        } else {
            j as int
        };
        let ghost nca = if crem == 0 {
            if j as int + 1 < cn as int {
                cseq[j as int + 1].1
            } else {
                0
            }
        } else {
            crem as int
        };
        proof {
            lemma_greedy_loop_step(dseq, cseq, i as int, j as int, damt as int, camt as int);
            let head = (di as int, ci as int, amt as int);
            let rest = greedy_payments(tail_with(dseq, ni, nda), tail_with(cseq, nj, nca));
            assert(head == (dseq[i as int].0, cseq[j as int].0, amt as int));
            assert(recs_view(recs@) =~= recs_view(recs_before).push(head));
            assert(recs_view(recs_before).push(head) + rest =~= recs_view(recs_before) + (seq![
                head,
            ] + rest));
        }
        if drem == 0 {
            i = i + 1;
            if i < dn {
                damt = debtors[i].1;
            } else {
                damt = 0;
            }
        } else {
            damt = drem;
        }
        if crem == 0 {
            j = j + 1;
            if j < cn {
                camt = creditors[j].1;
            } else {
                camt = 0;
            }
        } else {
            camt = crem;
        }
    }
    proof {
        assert(greedy_payments(
            tail_with(dseq, i as int, damt as int),
            tail_with(cseq, j as int, camt as int),
        ) =~= Seq::<(int, int, int)>::empty());
        assert(recs_view(recs@) =~= recs_view(recs@) + Seq::<(int, int, int)>::empty());
    }
    recs
}

/// Builds one result row per participant, in input order, attaching the
/// payments that the greedy sweep produced for that participant.
#[verifier::loop_isolation(false)]
fn assemble_rows(
    state: &BillSplitState,
    shares: &Vec<i64>,
    balances: &Vec<i64>,
    recs: &Vec<(usize, usize, i64)>,
) -> (rows: Vec<SplitResult>)
    requires
        state_wf(*state),
        shares@.len() == state.participants@.len(),
        balances@.len() == state.participants@.len(),
        forall|i: int|
            0 <= i < shares@.len() ==> #[trigger] shares@[i] as int == share_of(
                state.split_mode,
                state.num_people as int,
                sum_paid(state.participants@),
                state.participants@[i],
            ),
        forall|i: int|
            0 <= i < balances@.len() ==> #[trigger] balances@[i] as int == balance_of(
                state.split_mode,
                state.num_people as int,
                sum_paid(state.participants@),
                state.participants@[i],
            ),
        recs_view(recs@) == recs_of(*state),
        forall|t: int|
            0 <= t < recs@.len() ==> (#[trigger] recs@[t]).0 < state.participants@.len()
                && recs@[t].1 < state.participants@.len(),
    ensures
        rows_view(rows@) == spec_rows(*state),
{
    let ghost ps = state.participants@;
    let ghost grecs = recs_of(*state);
    let n: usize = state.participants.len();
    let rn: usize = recs.len();
    let mut results: Vec<SplitResult> = Vec::new();
    let mut k: usize = 0;
    while k < n
        invariant
            0 <= k <= n,
            results@.len() == k,
            forall|m: int| 0 <= m < k ==> #[trigger] row_view(results@[m]) == spec_row(*state, m),
        decreases n - k,
    {
        let mut pays: Vec<Payment> = Vec::new();
        let mut t: usize = 0;
        while t < rn
            invariant
                0 <= t <= rn,
                pays@.len() == payments_for(grecs.take(t as int), k as int).len(),
                forall|q: int|
                    0 <= q < pays@.len() ==> #[trigger] payment_view(pays@[q]) == (
                        ps[payments_for(grecs.take(t as int), k as int)[q].0].name@,
                        payments_for(grecs.take(t as int), k as int)[q].1,
                    ),
            decreases rn - t,
        {
            proof {
                assert(grecs.take(t as int + 1).drop_last() =~= grecs.take(t as int));
                assert(grecs[t as int] == recs_view(recs@)[t as int]);
            }
            if recs[t].0 == k {
                let target: usize = recs[t].1;
                pays.push(
                    Payment { to: state.participants[target].name.clone(), amount: recs[t].2 },
                );
            }
            t = t + 1;
        }
        proof {
            assert(grecs.take(rn as int) =~= grecs);
        }
        let row = SplitResult {
            name: state.participants[k].name.clone(),
            paid: state.participants[k].paid,
            share: shares[k],
            balance: balances[k],
            payments: pays,
        };
        proof {
            assert(row_view(row).4 =~= spec_row(*state, k as int).4);
            assert(row_view(row) == spec_row(*state, k as int));
        }
        results.push(row);
        k = k + 1;
    }
    proof {
        assert(rows_view(results@) =~= spec_rows(*state));
    }
    results
}

} // verus!
