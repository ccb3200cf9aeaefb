//! Cost operations and the netting engine.
//!
//! `create` validates a cost's debtor splits — percentages must sum to
//! exactly 100, amounts must sum to exactly the cost's amount — and
//! writes the cost together with its debt records as one atomic step:
//! on any error the registry is left untouched.

use vstd::prelude::*;
use crate::error::{
    amount_out_of_range_msg, amount_out_of_range_message, amount_sum_msg, amount_sum_message,
    bad_debtor_amount_msg, bad_debtor_amount_message, bad_percentage_msg, bad_percentage_message,
    mixed_split_msg, mixed_split_message, percentage_sum_msg, percentage_sum_message, AppError,
};
use crate::model::{
    account_dto_of, account_to_dto, copy_cost, debt_dto_of, same_cost, Account, CalculatedDebtDto,
    Cost, CostDto, CreateDebtorDto, Date, Debt, DebtDto, Payment, Split, MAX_CENTS,
};
use crate::store::{
    debts_all_amount, debts_all_percentage, cost_split_ok, has_account_id, has_cost_id,
    lemma_filter_debt_ids_unique, lemma_filter_elems, lemma_has_cost_id_push,
    lemma_has_cost_id_remove, lemma_split_sums_filter_other, lemma_split_sums_no_match,
    lemma_split_sums_push, sum_split_amounts, sum_split_percentages, find_account, find_cost,
    Registry,
};
use crate::text::{contains_str, dedup_strings, strings_unique};
use crate::netting::{
    is_counterparty, lemma_payments_select_elems, net_balance, pair_abs_sum, pairs_contain,
    payments_bounded, payments_from, payments_to, push_unique_u64, scan_paid_from, scan_paid_to,
    scan_pairs, sum_paid_from, sum_paid_to, sum_pairs, SHARE_SUM_CAP,
};

verus! {

/// Every requested debtor carries an amount-based share.
pub open spec fn debtors_all_amount(ds: Seq<CreateDebtorDto>) -> bool {
    forall|i: int| 0 <= i < ds.len() ==> (#[trigger] ds[i]).share is Amount
}

/// Every requested debtor carries a percentage-based share.
pub open spec fn debtors_all_percentage(ds: Seq<CreateDebtorDto>) -> bool {
    forall|i: int| 0 <= i < ds.len() ==> (#[trigger] ds[i]).share is Percentage
}

/// One split kind is used throughout the request.
pub open spec fn split_kind_uniform(ds: Seq<CreateDebtorDto>) -> bool {
    debtors_all_amount(ds) || debtors_all_percentage(ds)
}

/// Sum of the amount-based shares of the request.
pub open spec fn debtor_amount_sum(ds: Seq<CreateDebtorDto>) -> int
    decreases ds.len(),
{
    if ds.len() == 0 {
        0
    } else {
        debtor_amount_sum(ds.drop_last()) + match ds.last().share {
            Split::Amount(a) => a as int,
            Split::Percentage(_) => 0,
        }
    }
}

/// Sum of the percentage shares of the request.
pub open spec fn debtor_percentage_sum(ds: Seq<CreateDebtorDto>) -> int
    decreases ds.len(),
{
    if ds.len() == 0 {
        0
    } else {
        debtor_percentage_sum(ds.drop_last()) + match ds.last().share {
            Split::Percentage(p) => p as int,
            Split::Amount(_) => 0,
        }
    }
}

/// Every requested share is within its range.
pub open spec fn debtor_shares_valid(ds: Seq<CreateDebtorDto>) -> bool {
    forall|i: int| 0 <= i < ds.len() ==> (#[trigger] ds[i]).share.valid()
}

/// Every requested debtor names an existing account.
pub open spec fn debtor_accounts_exist(accounts: Seq<Account>, ds: Seq<CreateDebtorDto>) -> bool {
    forall|i: int| 0 <= i < ds.len() ==> has_account_id(accounts, (#[trigger] ds[i]).account_id)
}

/// The tags named by the request (`None` means no tags).
pub open spec fn given_tags(tags: Option<Vec<String>>) -> Seq<String> {
    match tags {
        Some(t) => t@,
        None => Seq::<String>::empty(),
    }
}

proof fn lemma_debtor_sums_step(ds: Seq<CreateDebtorDto>, i: int)
    requires
        0 <= i < ds.len(),
    ensures
        debtor_amount_sum(ds.take(i + 1)) == debtor_amount_sum(ds.take(i)) + match ds[i].share {
            Split::Amount(a) => a as int,
            Split::Percentage(_) => 0,
        },
        debtor_percentage_sum(ds.take(i + 1)) == debtor_percentage_sum(ds.take(i)) + match ds[
            i
        ].share {
            Split::Percentage(p) => p as int,
            Split::Amount(_) => 0,
        },
{
    assert(ds.take(i + 1).drop_last() =~= ds.take(i));
    assert(ds.take(i + 1).last() == ds[i]);
}

/// Validates and records a shared expense, atomically.
///
/// All checks run before anything is written; on every error path the
/// registry is exactly what it was.  On success one cost record and one
/// debt record per requested debtor are appended, and the returned cost
/// carries the deduplicated tag set.
#[verifier::loop_isolation(false)]
pub fn create(
    reg: &mut Registry,
    account_id: u64,
    debtors: Vec<CreateDebtorDto>,
    amount: i64,
    description: Option<String>,
    event_date: Date,
    tags: Option<Vec<String>>,
) -> (r: Result<Cost, AppError>)
    requires
        old(reg).wf(),
    ensures
        final(reg).wf(),
        match r {
            Ok(c) => {
                &&& 0 <= amount <= MAX_CENTS
                &&& has_account_id(old(reg).accounts@, account_id)
                &&& debtor_accounts_exist(old(reg).accounts@, debtors@)
                &&& split_kind_uniform(debtors@)
                &&& debtor_shares_valid(debtors@)
                &&& if debtors_all_amount(debtors@) {
                    debtor_amount_sum(debtors@) == amount
                } else {
                    debtor_percentage_sum(debtors@) == 100
                }
                &&& c.id == old(reg).next_id
                &&& c.account_id == account_id
                &&& c.amount == amount
                &&& c.event_date == event_date
                &&& c.description == description
                &&& strings_unique(c.tags@)
                &&& forall|k: int|
                    0 <= k < c.tags@.len() ==> contains_str(given_tags(tags), (#[trigger] c.tags@[k])@)
                &&& forall|k: int|
                    0 <= k < given_tags(tags).len() ==> contains_str(
                        c.tags@,
                        (#[trigger] given_tags(tags)[k])@,
                    )
                &&& final(reg).costs@.len() == old(reg).costs@.len() + 1
                &&& final(reg).costs@.drop_last() == old(reg).costs@
                &&& same_cost(final(reg).costs@.last(), c)
                &&& final(reg).debts@.len() == old(reg).debts@.len() + debtors@.len()
                &&& forall|k: int|
                    0 <= k < old(reg).debts@.len() ==> final(reg).debts@[k] == old(reg).debts@[k]
                &&& forall|k: int|
                    0 <= k < debtors@.len() ==> final(reg).debts@[old(reg).debts@.len() + k] == (Debt {
                        id: (old(reg).next_id + 1 + k) as u64,
                        debtor_account_id: (#[trigger] debtors@[k]).account_id,
                        cost_id: old(reg).next_id,
                        share: debtors@[k].share,
                    })
                &&& final(reg).accounts == old(reg).accounts
                &&& final(reg).payments == old(reg).payments
                &&& final(reg).next_id == old(reg).next_id + 1 + debtors@.len()
            },
            Err(e) => {
                &&& *final(reg) == *old(reg)
                &&& match e {
                    AppError::Service(m) => {
                        ||| (!(0 <= amount <= MAX_CENTS) && m@ == amount_out_of_range_msg(
                            amount as int,
                        ))
                        ||| (0 <= amount <= MAX_CENTS && has_account_id(
                            old(reg).accounts@,
                            account_id,
                        ) && debtor_accounts_exist(old(reg).accounts@, debtors@)
                            && !split_kind_uniform(debtors@) && m@ == mixed_split_msg())
                        ||| (0 <= amount <= MAX_CENTS && has_account_id(
                            old(reg).accounts@,
                            account_id,
                        ) && debtor_accounts_exist(old(reg).accounts@, debtors@)
                            && split_kind_uniform(debtors@) && exists|w: int|
                            0 <= w < debtors@.len() && ((#[trigger] debtors@[w]).share matches Split::Percentage(p)
                                && !(0 <= p <= 100) && m@ == bad_percentage_msg(p as int)))
                        ||| (0 <= amount <= MAX_CENTS && has_account_id(
                            old(reg).accounts@,
                            account_id,
                        ) && debtor_accounts_exist(old(reg).accounts@, debtors@)
                            && split_kind_uniform(debtors@) && debtor_shares_valid(debtors@)
                            && !debtors_all_amount(debtors@) && debtor_percentage_sum(debtors@)
                            != 100 && m@ == percentage_sum_msg(debtor_percentage_sum(debtors@)))
                        ||| (0 <= amount <= MAX_CENTS && has_account_id(
                            old(reg).accounts@,
                            account_id,
                        ) && debtor_accounts_exist(old(reg).accounts@, debtors@)
                            && split_kind_uniform(debtors@) && debtor_shares_valid(debtors@)
                            && debtors_all_amount(debtors@) && debtor_amount_sum(debtors@)
                            != amount && m@ == amount_sum_msg(
                            amount as int,
                            debtor_amount_sum(debtors@),
                        ))
                    },
                    AppError::Controller(m) => 0 <= amount <= MAX_CENTS && has_account_id(
                        old(reg).accounts@,
                        account_id,
                    ) && debtor_accounts_exist(old(reg).accounts@, debtors@) && split_kind_uniform(
                        debtors@,
                    ) && exists|w: int|
                        0 <= w < debtors@.len() && ((#[trigger] debtors@[w]).share matches Split::Amount(a)
                            && !(1 <= a <= MAX_CENTS) && m@ == bad_debtor_amount_msg(a as int)),
                    AppError::NotFound => 0 <= amount <= MAX_CENTS && (!has_account_id(
                        old(reg).accounts@,
                        account_id,
                    ) || !debtor_accounts_exist(old(reg).accounts@, debtors@)),
                    AppError::InternalServer(_) => old(reg).next_id + 1 + debtors@.len()
                        > u64::MAX,
                    AppError::Forbidden => false,
                }
            },
        },
{
    // Range check on the cost's own amount.
    if amount < 0 || amount > MAX_CENTS {
        return Err(AppError::Service(amount_out_of_range_message(amount)));
    }
    // Referential checks: the paying account and every debtor account.
    if find_account(&reg.accounts, account_id).is_none() {
        return Err(AppError::NotFound);
    }
    let mut i: usize = 0;
    while i < debtors.len()
        invariant
            0 <= i <= debtors@.len(),
            forall|k: int|
                0 <= k < i ==> has_account_id(reg.accounts@, (#[trigger] debtors@[k]).account_id),
        decreases debtors@.len() - i,
    {
        if find_account(&reg.accounts, debtors[i].account_id).is_none() {
            return Err(AppError::NotFound);
        }
        i = i + 1;
    }
    // One split kind throughout.
    let amount_kind: bool = if debtors.len() == 0 {
        true
    } else {
        matches!(debtors[0].share, Split::Amount(_))
    };
    let mut i: usize = 0;
    while i < debtors.len()
        invariant
            0 <= i <= debtors@.len(),
            debtors@.len() > 0 ==> amount_kind == debtors@[0].share is Amount,
            debtors@.len() == 0 ==> amount_kind,
            forall|k: int| 0 <= k < i ==> ((#[trigger] debtors@[k]).share is Amount <==> amount_kind),
        decreases debtors@.len() - i,
    {
        let this_amount = matches!(debtors[i].share, Split::Amount(_));
        if this_amount != amount_kind {
            proof {
                if amount_kind {
                    assert(debtors@[0].share is Amount);
                    assert(debtors@[i as int].share is Percentage);
                } else {
                    assert(debtors@[0].share is Percentage);
                    assert(debtors@[i as int].share is Amount);
                }
            }
            return Err(AppError::Service(mixed_split_message()));
        }
        i = i + 1;
    }
    // Per-debtor range checks.
    let mut i: usize = 0;
    while i < debtors.len()
        invariant
            0 <= i <= debtors@.len(),
            forall|k: int| 0 <= k < i ==> (#[trigger] debtors@[k]).share.valid(),
        decreases debtors@.len() - i,
    {
        match debtors[i].share {
            Split::Amount(a) => {
                if a < 1 || a > MAX_CENTS {
                    return Err(AppError::Controller(bad_debtor_amount_message(a)));
                }
            },
            Split::Percentage(p) => {
                if p < 0 || p > 100 {
                    return Err(AppError::Service(bad_percentage_message(p)));
                }
            },
        }
        i = i + 1;
    }
    // The split-sum invariant: amounts must reach the cost's amount,
    // percentages must reach exactly 100.
    let mut asum: i128 = 0;
    let mut psum: i128 = 0;
    let mut i: usize = 0;
    while i < debtors.len()
        invariant
            0 <= i <= debtors@.len(),
            debtor_shares_valid(debtors@),
            asum == debtor_amount_sum(debtors@.take(i as int)),
            psum == debtor_percentage_sum(debtors@.take(i as int)),
            0 <= asum <= i * MAX_CENTS,
            0 <= psum <= i * 100,
        decreases debtors@.len() - i,
    {
        proof {
            lemma_debtor_sums_step(debtors@, i as int);
        }
        match debtors[i].share {
            Split::Amount(a) => {
                asum = asum + a as i128;
            },
            Split::Percentage(p) => {
                psum = psum + p as i128;
            },
        }
        i = i + 1;
    }
    proof {
        assert(debtors@.take(debtors@.len() as int) =~= debtors@);
    }
    if amount_kind {
        if asum != amount as i128 {
            return Err(AppError::Service(amount_sum_message(amount, asum)));
        }
    } else {
        if psum != 100 {
            return Err(AppError::Service(percentage_sum_message(psum)));
        }
    }
    // Identifier space for the cost and one debt per debtor.
    let needed: u128 = debtors.len() as u128 + 1;
    if ((u64::MAX - reg.next_id) as u128) < needed {
        proof {
            reveal_strlit("identifier space exhausted");
        }
        return Err(AppError::InternalServer(String::from_str("identifier space exhausted")));
    }
    // Tags get set semantics before storage.
    let tag_source: Vec<String> = match tags {
        Some(t) => t,
        None => Vec::new(),
    };
    let deduped = dedup_strings(&tag_source);
    // All checks passed: write the cost and its debts.
    let cost_id = reg.next_id;
    let ghost old_reg = *reg;
    let cost = Cost {
        id: cost_id,
        account_id,
        amount,
        event_date,
        description,
        tags: deduped,
    };
    let result = copy_cost(&cost);
    reg.costs.push(cost);
    reg.next_id = cost_id + 1 + debtors.len() as u64;
    proof {
        assert(reg.costs@.drop_last() =~= old_reg.costs@);
        // No existing debt belongs to the fresh cost id.
        assert forall|k: int|
            0 <= k < reg.debts@.len() implies (#[trigger] reg.debts@[k]).cost_id != cost_id by {
            let w = choose|w: int|
                0 <= w < old_reg.costs@.len() && old_reg.costs@[w].id == reg.debts@[k].cost_id;
            assert(old_reg.costs@[w].id < cost_id);
        }
        lemma_split_sums_no_match(reg.debts@, cost_id);
        // Old costs keep their account references and split sums.
        assert forall|k: int|
            0 <= k < old_reg.costs@.len() implies cost_split_ok(
            reg.debts@,
            #[trigger] reg.costs@[k],
        ) by {
            assert(reg.costs@[k] == old_reg.costs@[k]);
        }
        // Every old debt still finds its cost after the push.
        assert forall|t: int|
            0 <= t < reg.debts@.len() implies has_cost_id(
            reg.costs@,
            (#[trigger] reg.debts@[t]).cost_id,
        ) by {
            lemma_has_cost_id_push(old_reg.costs@, reg.costs@.last(), reg.debts@[t].cost_id);
        }
    }
    let mut k: usize = 0;
    while k < debtors.len()
        invariant
            0 <= k <= debtors@.len(),
            reg.accounts == old_reg.accounts,
            reg.payments == old_reg.payments,
            reg.costs@.len() == old_reg.costs@.len() + 1,
            reg.costs@.drop_last() == old_reg.costs@,
            reg.costs@.last().id == cost_id,
            reg.costs@.last().account_id == account_id,
            reg.costs@.last().amount == amount,
            reg.costs@.last().valid(),
            same_cost(reg.costs@.last(), result),
            old_reg.wf(),
            reg.next_id == cost_id + 1 + debtors@.len(),
            old_reg.next_id == cost_id,
            cost_id + 1 + debtors@.len() <= u64::MAX,
            debtor_shares_valid(debtors@),
            debtor_accounts_exist(old_reg.accounts@, debtors@),
            debtors@.len() > 0 ==> (amount_kind <==> debtors@[0].share is Amount),
            forall|t: int| 0 <= t < debtors@.len() ==> ((#[trigger] debtors@[t]).share is Amount <==> amount_kind),
            amount_kind ==> debtor_amount_sum(debtors@) == amount,
            !amount_kind ==> debtor_percentage_sum(debtors@) == 100,
            reg.debts@.len() == old_reg.debts@.len() + k,
            forall|t: int| 0 <= t < old_reg.debts@.len() ==> reg.debts@[t] == old_reg.debts@[t],
            forall|t: int|
                0 <= t < k ==> reg.debts@[old_reg.debts@.len() + t] == (Debt {
                    id: (cost_id + 1 + t) as u64,
                    debtor_account_id: (#[trigger] debtors@[t]).account_id,
                    cost_id: cost_id,
                    share: debtors@[t].share,
                }),
            forall|a: int, b: int|
                0 <= a < b < reg.debts@.len() ==> (#[trigger] reg.debts@[a]).id != (
                #[trigger] reg.debts@[b]).id,
            forall|t: int| 0 <= t < reg.debts@.len() ==> (#[trigger] reg.debts@[t]).id < reg.next_id,
            forall|t: int|
                0 <= t < reg.debts@.len() ==> has_cost_id(
                    reg.costs@,
                    (#[trigger] reg.debts@[t]).cost_id,
                ) && has_account_id(reg.accounts@, reg.debts@[t].debtor_account_id)
                    && reg.debts@[t].share.valid(),
            forall|t: int|
                0 <= t < old_reg.costs@.len() ==> cost_split_ok(
                    reg.debts@,
                    #[trigger] reg.costs@[t],
                ),
            sum_split_amounts(reg.debts@, cost_id) == debtor_amount_sum(debtors@.take(k as int)),
            sum_split_percentages(reg.debts@, cost_id) == debtor_percentage_sum(
                debtors@.take(k as int),
            ),
            amount_kind ==> debts_all_amount(reg.debts@, cost_id),
            !amount_kind ==> debts_all_percentage(reg.debts@, cost_id),
        decreases debtors@.len() - k,
    {
        let debt = Debt {
            id: cost_id + 1 + k as u64,
            debtor_account_id: debtors[k].account_id,
            cost_id,
            share: debtors[k].share,
        };
        proof {
            lemma_split_sums_push(reg.debts@, debt, cost_id);
            lemma_debtor_sums_step(debtors@, k as int);
            let ghost prev = reg.debts@;
            assert forall|t: int|
                0 <= t < old_reg.costs@.len() implies cost_split_ok(
                prev.push(debt),
                #[trigger] reg.costs@[t],
            ) by {
                assert(reg.costs@[t] == reg.costs@.drop_last()[t]);
                assert(reg.costs@[t].id < cost_id) by {
                    assert(old_reg.costs@[t] == reg.costs@[t]);
                }
                lemma_split_sums_push(prev, debt, reg.costs@[t].id);
            }
        }
        let ghost before_push = reg.debts@;
        reg.debts.push(debt);
        proof {
            let old_len = old_reg.debts@.len() as int;
            assert forall|a: int, b: int|
                0 <= a < b < reg.debts@.len() implies (#[trigger] reg.debts@[a]).id != (
            #[trigger] reg.debts@[b]).id by {
                if b == reg.debts@.len() - 1 {
                    assert(reg.debts@[b] == debt);
                    if a < old_len {
                        assert(reg.debts@[a] == old_reg.debts@[a]);
                        assert(old_reg.debts@[a].id < cost_id);
                    } else {
                        let t = a - old_len;
                        assert(reg.debts@[a] == before_push[a]);
                        assert(before_push[old_len + t] == (Debt {
                            id: (cost_id + 1 + t) as u64,
                            debtor_account_id: debtors@[t].account_id,
                            cost_id: cost_id,
                            share: debtors@[t].share,
                        }));
                    }
                } else {
                    assert(reg.debts@[a] == before_push[a]);
                    assert(reg.debts@[b] == before_push[b]);
                }
            }
        }
        k = k + 1;
    }
    proof {
        assert(debtors@.take(debtors@.len() as int) =~= debtors@);
        // The new cost's split sums come to exactly what validation
        // demanded, so the split invariant holds for it too.
        assert(cost_split_ok(reg.debts@, reg.costs@.last()));
        assert forall|t: int|
            0 <= t < reg.costs@.len() implies cost_split_ok(
            reg.debts@,
            #[trigger] reg.costs@[t],
        ) by {
            if t < reg.costs@.len() - 1 {
                assert(reg.costs@[t] == reg.costs@.drop_last()[t]);
            }
        }
        // Unique ids and referential integrity for the cost table.
        assert forall|a: int, b: int|
            0 <= a < b < reg.costs@.len() implies (#[trigger] reg.costs@[a]).id != (
        #[trigger] reg.costs@[b]).id by {
            if b < reg.costs@.len() - 1 {
                assert(reg.costs@[a] == old_reg.costs@[a]);
                assert(reg.costs@[b] == old_reg.costs@[b]);
            } else {
                assert(reg.costs@[a] == old_reg.costs@[a]);
                assert(old_reg.costs@[a].id < cost_id);
            }
        }
        assert forall|t: int|
            0 <= t < reg.costs@.len() implies has_account_id(
            reg.accounts@,
            (#[trigger] reg.costs@[t]).account_id,
        ) && reg.costs@[t].valid() && reg.costs@[t].id < reg.next_id by {
            if t < reg.costs@.len() - 1 {
                assert(reg.costs@[t] == old_reg.costs@[t]);
            }
        }
    }
    Ok(result)
}

/// Deletes a cost; its debt records are deleted with it, so the split
/// invariant of every remaining cost is untouched.
#[verifier::loop_isolation(false)]
pub fn delete(reg: &mut Registry, cost_id: u64) -> (r: Result<(), AppError>)
    requires
        old(reg).wf(),
    ensures
        final(reg).wf(),
        match r {
            Ok(()) => {
                &&& exists|i: int|
                    0 <= i < old(reg).costs@.len() && (#[trigger] old(reg).costs@[i]).id == cost_id
                        && final(reg).costs@ == old(reg).costs@.remove(i)
                &&& final(reg).debts@ == old(reg).debts@.filter(|d: Debt| d.cost_id != cost_id)
                &&& final(reg).accounts == old(reg).accounts
                &&& final(reg).payments == old(reg).payments
                &&& final(reg).next_id == old(reg).next_id
            },
            Err(e) => {
                &&& e is NotFound
                &&& !has_cost_id(old(reg).costs@, cost_id)
                &&& *final(reg) == *old(reg)
            },
        },
{
    let found = match find_cost(&reg.costs, cost_id) {
        Some(i) => i,
        None => {
            return Err(AppError::NotFound);
        },
    };
    let ghost old_reg = *reg;
    // Keep only the debts of other costs.
    let mut kept: Vec<Debt> = Vec::new();
    let mut i: usize = 0;
    while i < reg.debts.len()
        invariant
            0 <= i <= reg.debts@.len(),
            kept@ == reg.debts@.take(i as int).filter(|d: Debt| d.cost_id != cost_id),
        decreases reg.debts@.len() - i,
    {
        proof {
            assert(reg.debts@.take(i as int).push(reg.debts@[i as int]) =~= reg.debts@.take(
                i as int + 1,
            ));
            crate::store::lemma_filter_push(
                reg.debts@.take(i as int),
                reg.debts@[i as int],
                |d: Debt| d.cost_id != cost_id,
            );
        }
        if reg.debts[i].cost_id != cost_id {
            kept.push(reg.debts[i]);
        }
        i = i + 1;
    }
    proof {
        assert(reg.debts@.take(reg.debts@.len() as int) =~= reg.debts@);
    }
    reg.debts = kept;
    reg.costs.remove(found);
    proof {
        let pred = |d: Debt| d.cost_id != cost_id;
        lemma_filter_elems(old_reg.debts@, pred);
        lemma_filter_debt_ids_unique(old_reg.debts@, pred);
        // Remaining costs: unique ids, references, and split sums.
        assert forall|a: int, b: int|
            0 <= a < b < reg.costs@.len() implies (#[trigger] reg.costs@[a]).id != (
        #[trigger] reg.costs@[b]).id by {
            assert(reg.costs@[a] == if a < found {
                old_reg.costs@[a]
            } else {
                old_reg.costs@[a + 1]
            });
            assert(reg.costs@[b] == if b < found {
                old_reg.costs@[b]
            } else {
                old_reg.costs@[b + 1]
            });
        }
        assert forall|t: int|
            0 <= t < reg.costs@.len() implies has_account_id(
            reg.accounts@,
            (#[trigger] reg.costs@[t]).account_id,
        ) && reg.costs@[t].valid() && reg.costs@[t].id < reg.next_id && cost_split_ok(
            reg.debts@,
            reg.costs@[t],
        ) by {
            let orig = if t < found {
                t
            } else {
                t + 1
            };
            assert(reg.costs@[t] == old_reg.costs@[orig]);
            assert(old_reg.costs@[orig].id != cost_id) by {
                assert(old_reg.costs@[found as int].id == cost_id);
                if orig != found {
                    assert(old_reg.costs@[orig].id != old_reg.costs@[found as int].id);
                }
            }
            lemma_split_sums_filter_other(old_reg.debts@, cost_id, old_reg.costs@[orig].id);
            assert(cost_split_ok(old_reg.debts@, old_reg.costs@[orig]));
        }
        // Remaining debts: every one came from the old table and keeps
        // its references; the removed cost is the only one gone.
        assert forall|t: int|
            0 <= t < reg.debts@.len() implies has_cost_id(
            reg.costs@,
            (#[trigger] reg.debts@[t]).cost_id,
        ) && has_account_id(reg.accounts@, reg.debts@[t].debtor_account_id)
            && reg.debts@[t].share.valid() && reg.debts@[t].id < reg.next_id by {
            let j = choose|j: int|
                0 <= j < old_reg.debts@.len() && old_reg.debts@[j] == reg.debts@[t];
            assert(old_reg.debts@[j].cost_id != cost_id) by {
                old_reg.debts@.lemma_filter_pred(pred, t);
            }
            lemma_has_cost_id_remove(old_reg.costs@, found as int, reg.debts@[t].cost_id);
        }
    }
    Ok(())
}

// ------------------------------------------------------------------
// Aggregated debt sums.
//
// The ledger reads debts through two aggregations: for one account as
// the debtor, how much it owes each cost-fronting account; and for one
// account's costs, how much each debtor owes it.  Both produce keyed
// pair lists consumed by the netting engine.

/// Index of the cost with identifier `id` (unique under `ids_ok`).
pub open spec fn cost_index_of(costs: Seq<Cost>, id: u64) -> int {
    choose|i: int| 0 <= i < costs.len() && costs[i].id == id
}

/// What debt `d` contributes to the claim of `owner` on `debtor`:
/// its share of the cost it belongs to, when `d` is `debtor`'s share
/// of a cost fronted by `owner`; zero otherwise.
pub open spec fn debt_contrib(costs: Seq<Cost>, d: Debt, debtor: u64, owner: u64) -> int {
    if d.debtor_account_id == debtor && has_cost_id(costs, d.cost_id) && costs[cost_index_of(
        costs,
        d.cost_id,
    )].account_id == owner {
        crate::model::share_cents(costs[cost_index_of(costs, d.cost_id)].amount as int, d.share)
    } else {
        0
    }
}

/// Total cents `debtor` owes `owner` through cost shares.
pub open spec fn debt_sum(costs: Seq<Cost>, debts: Seq<Debt>, debtor: u64, owner: u64) -> int
    decreases debts.len(),
{
    if debts.len() == 0 {
        0
    } else {
        debt_sum(costs, debts.drop_last(), debtor, owner) + debt_contrib(
            costs,
            debts.last(),
            debtor,
            owner,
        )
    }
}

/// Whether `debtor` has any recorded share of a cost fronted by `owner`.
pub open spec fn has_debt_between(costs: Seq<Cost>, debts: Seq<Debt>, debtor: u64, owner: u64) -> bool {
    exists|i: int|
        0 <= i < debts.len() && (#[trigger] debts[i]).debtor_account_id == debtor && has_cost_id(
            costs,
            debts[i].cost_id,
        ) && costs[cost_index_of(costs, debts[i].cost_id)].account_id == owner
}

/// Every cost amount and every share in the tables is validated.
pub open spec fn tables_valid(costs: Seq<Cost>, debts: Seq<Debt>) -> bool {
    &&& forall|i: int| 0 <= i < costs.len() ==> (#[trigger] costs[i]).valid()
    &&& forall|i: int| 0 <= i < debts.len() ==> (#[trigger] debts[i]).share.valid()
}

proof fn lemma_debt_contrib_bounds(costs: Seq<Cost>, d: Debt, debtor: u64, owner: u64)
    requires
        tables_valid(costs, seq![d]),
    ensures
        0 <= debt_contrib(costs, d, debtor, owner) <= MAX_CENTS,
{
    assert(seq![d][0] == d);
    if d.debtor_account_id == debtor && has_cost_id(costs, d.cost_id) && costs[cost_index_of(
        costs,
        d.cost_id,
    )].account_id == owner {
        let c = costs[cost_index_of(costs, d.cost_id)];
        assert(c.valid());
        crate::model::lemma_share_cents_bounds(c.amount as int, d.share);
    }
}

proof fn lemma_debt_contrib_bounds_in(costs: Seq<Cost>, debts: Seq<Debt>, t: int, debtor: u64, owner: u64)
    requires
        tables_valid(costs, debts),
        0 <= t < debts.len(),
    ensures
        0 <= debt_contrib(costs, debts[t], debtor, owner) <= MAX_CENTS,
{
    assert(tables_valid(costs, seq![debts[t]])) by {
        assert(seq![debts[t]][0] == debts[t]);
    }
    lemma_debt_contrib_bounds(costs, debts[t], debtor, owner);
}

proof fn lemma_debt_sum_step(costs: Seq<Cost>, debts: Seq<Debt>, debtor: u64, owner: u64, i: int)
    requires
        0 <= i < debts.len(),
    ensures
        debt_sum(costs, debts.take(i + 1), debtor, owner) == debt_sum(
            costs,
            debts.take(i),
            debtor,
            owner,
        ) + debt_contrib(costs, debts[i], debtor, owner),
{
    assert(debts.take(i + 1).drop_last() =~= debts.take(i));
    assert(debts.take(i + 1).last() == debts[i]);
}

/// Under validated tables the pair sum is non-negative and bounded.
pub proof fn lemma_debt_sum_bounds(costs: Seq<Cost>, debts: Seq<Debt>, debtor: u64, owner: u64)
    requires
        tables_valid(costs, debts),
    ensures
        0 <= debt_sum(costs, debts, debtor, owner) <= debts.len() * MAX_CENTS,
    decreases debts.len(),
{
    if debts.len() > 0 {
        assert(tables_valid(costs, debts.drop_last())) by {
            assert(forall|i: int|
                0 <= i < debts.drop_last().len() ==> (#[trigger] debts.drop_last()[i])
                    == debts[i]);
        }
        lemma_debt_sum_bounds(costs, debts.drop_last(), debtor, owner);
        lemma_debt_contrib_bounds_in(costs, debts, debts.len() - 1, debtor, owner);
    }
}

/// When `debtor` never appears as a debtor toward `owner`, the sum is
/// zero.
proof fn lemma_debt_sum_no_match(costs: Seq<Cost>, debts: Seq<Debt>, debtor: u64, owner: u64)
    requires
        !has_debt_between(costs, debts, debtor, owner),
    ensures
        debt_sum(costs, debts, debtor, owner) == 0,
    decreases debts.len(),
{
    if debts.len() > 0 {
        assert(!has_debt_between(costs, debts.drop_last(), debtor, owner)) by {
            if has_debt_between(costs, debts.drop_last(), debtor, owner) {
                let i = choose|i: int|
                    0 <= i < debts.drop_last().len() && (#[trigger] debts.drop_last()[i]).debtor_account_id
                        == debtor && has_cost_id(costs, debts.drop_last()[i].cost_id) && costs[
                        cost_index_of(costs, debts.drop_last()[i].cost_id)
                    ].account_id == owner;
                assert(debts[i] == debts.drop_last()[i]);
            }
        }
        lemma_debt_sum_no_match(costs, debts.drop_last(), debtor, owner);
        assert(debt_contrib(costs, debts.last(), debtor, owner) == 0) by {
            assert(debts[debts.len() - 1] == debts.last());
        }
    }
}

/// Total cents `debtor` owes anyone through cost shares.  Bounds the
/// magnitude sum of the aggregated pair list keyed by owner.
pub open spec fn debtor_share_total(costs: Seq<Cost>, debts: Seq<Debt>, debtor: u64) -> int
    decreases debts.len(),
{
    if debts.len() == 0 {
        0
    } else {
        debtor_share_total(costs, debts.drop_last(), debtor) + debt_contrib(
            costs,
            debts.last(),
            debtor,
            owner_of(costs, debts.last()),
        )
    }
}

/// The account that fronted the cost a debt belongs to (or the
/// debtor's own id when the cost is missing, making the contribution
/// zero nowhere relevant).
pub open spec fn owner_of(costs: Seq<Cost>, d: Debt) -> u64 {
    if has_cost_id(costs, d.cost_id) {
        costs[cost_index_of(costs, d.cost_id)].account_id
    } else {
        0
    }
}

/// A debt contributes only toward the account that fronted its cost.
proof fn lemma_debt_contrib_single(costs: Seq<Cost>, d: Debt, debtor: u64, owner: u64)
    requires
        owner != owner_of(costs, d),
    ensures
        debt_contrib(costs, d, debtor, owner) == 0,
{
}

/// Sums of `debt_sum` over a list of distinct owner keys.
pub open spec fn owner_key_sums(
    costs: Seq<Cost>,
    debts: Seq<Debt>,
    debtor: u64,
    keys: Seq<u64>,
) -> int
    decreases keys.len(),
{
    if keys.len() == 0 {
        0
    } else {
        owner_key_sums(costs, debts, debtor, keys.drop_last()) + debt_sum(
            costs,
            debts,
            debtor,
            keys.last(),
        )
    }
}

/// One debt's contributions across a list of keys.
spec fn keys_contrib(costs: Seq<Cost>, d: Debt, debtor: u64, keys: Seq<u64>) -> int
    decreases keys.len(),
{
    if keys.len() == 0 {
        0
    } else {
        keys_contrib(costs, d, debtor, keys.drop_last()) + debt_contrib(
            costs,
            d,
            debtor,
            keys.last(),
        )
    }
}

proof fn lemma_keys_contrib_zero(costs: Seq<Cost>, d: Debt, debtor: u64, keys: Seq<u64>)
    requires
        forall|i: int| 0 <= i < keys.len() ==> keys[i] != owner_of(costs, d),
    ensures
        keys_contrib(costs, d, debtor, keys) == 0,
    decreases keys.len(),
{
    if keys.len() > 0 {
        assert(forall|i: int|
            0 <= i < keys.drop_last().len() ==> (#[trigger] keys.drop_last()[i]) == keys[i]);
        lemma_keys_contrib_zero(costs, d, debtor, keys.drop_last());
        lemma_debt_contrib_single(costs, d, debtor, keys.last());
        assert(keys[keys.len() - 1] == keys.last());
    }
}

proof fn lemma_keys_contrib_bound(costs: Seq<Cost>, d: Debt, debtor: u64, keys: Seq<u64>)
    requires
        tables_valid(costs, seq![d]),
        forall|i: int, j: int| 0 <= i < j < keys.len() ==> keys[i] != keys[j],
    ensures
        0 <= keys_contrib(costs, d, debtor, keys) <= debt_contrib(
            costs,
            d,
            debtor,
            owner_of(costs, d),
        ),
    decreases keys.len(),
{
    lemma_debt_contrib_bounds(costs, d, debtor, owner_of(costs, d));
    if keys.len() > 0 {
        assert(forall|i: int|
            0 <= i < keys.drop_last().len() ==> (#[trigger] keys.drop_last()[i]) == keys[i]);
        if keys.last() == owner_of(costs, d) {
            lemma_keys_contrib_zero(costs, d, debtor, keys.drop_last());
        } else {
            lemma_debt_contrib_single(costs, d, debtor, keys.last());
            lemma_keys_contrib_bound(costs, d, debtor, keys.drop_last());
        }
    }
}

proof fn lemma_owner_key_sums_step(
    costs: Seq<Cost>,
    debts: Seq<Debt>,
    debtor: u64,
    keys: Seq<u64>,
)
    requires
        debts.len() > 0,
    ensures
        owner_key_sums(costs, debts, debtor, keys) == owner_key_sums(
            costs,
            debts.drop_last(),
            debtor,
            keys,
        ) + keys_contrib(costs, debts.last(), debtor, keys),
    decreases keys.len(),
{
    if keys.len() > 0 {
        lemma_owner_key_sums_step(costs, debts, debtor, keys.drop_last());
    }
}

/// Distinct owners partition the debtor's shares: the keyed sums add
/// up to at most the debtor's total share.
pub proof fn lemma_owner_key_sums_bound(
    costs: Seq<Cost>,
    debts: Seq<Debt>,
    debtor: u64,
    keys: Seq<u64>,
)
    requires
        tables_valid(costs, debts),
        forall|i: int, j: int| 0 <= i < j < keys.len() ==> keys[i] != keys[j],
    ensures
        0 <= owner_key_sums(costs, debts, debtor, keys) <= debtor_share_total(
            costs,
            debts,
            debtor,
        ),
    decreases debts.len(),
{
    if debts.len() == 0 {
        assert(owner_key_sums(costs, debts, debtor, keys) == 0) by {
            lemma_owner_key_sums_zero(costs, debts, debtor, keys);
        }
    } else {
        assert(tables_valid(costs, debts.drop_last())) by {
            assert(forall|i: int|
                0 <= i < debts.drop_last().len() ==> (#[trigger] debts.drop_last()[i])
                    == debts[i]);
        }
        lemma_owner_key_sums_bound(costs, debts.drop_last(), debtor, keys);
        lemma_owner_key_sums_step(costs, debts, debtor, keys);
        assert(tables_valid(costs, seq![debts.last()])) by {
            assert(seq![debts.last()][0] == debts.last());
            assert(debts[debts.len() - 1] == debts.last());
        }
        lemma_keys_contrib_bound(costs, debts.last(), debtor, keys);
    }
}

proof fn lemma_owner_key_sums_zero(costs: Seq<Cost>, debts: Seq<Debt>, debtor: u64, keys: Seq<u64>)
    requires
        debts.len() == 0,
    ensures
        owner_key_sums(costs, debts, debtor, keys) == 0,
    decreases keys.len(),
{
    if keys.len() > 0 {
        lemma_owner_key_sums_zero(costs, debts, debtor, keys.drop_last());
    }
}

/// The debtor's total share stays under one `MAX_CENTS` per debt.
pub proof fn lemma_debtor_share_total_bound(costs: Seq<Cost>, debts: Seq<Debt>, debtor: u64)
    requires
        tables_valid(costs, debts),
    ensures
        0 <= debtor_share_total(costs, debts, debtor) <= debts.len() * MAX_CENTS,
    decreases debts.len(),
{
    if debts.len() > 0 {
        assert(tables_valid(costs, debts.drop_last())) by {
            assert(forall|i: int|
                0 <= i < debts.drop_last().len() ==> (#[trigger] debts.drop_last()[i])
                    == debts[i]);
        }
        lemma_debtor_share_total_bound(costs, debts.drop_last(), debtor);
        lemma_debt_contrib_bounds_in(
            costs,
            debts,
            debts.len() - 1,
            debtor,
            owner_of(costs, debts.last()),
        );
        assert(debts[debts.len() - 1] == debts.last());
    }
}

/// Scan: total cents `debtor` owes `owner` through cost shares.
#[verifier::loop_isolation(false)]
fn scan_debt_sum(reg: &Registry, debtor: u64, owner: u64) -> (r: i128)
    requires
        reg.ids_ok(),
        reg.values_ok(),
    ensures
        r == debt_sum(reg.costs@, reg.debts@, debtor, owner),
        0 <= r <= reg.debts@.len() * MAX_CENTS,
{
    let mut acc: i128 = 0;
    let mut i: usize = 0;
    while i < reg.debts.len()
        invariant
            0 <= i <= reg.debts@.len(),
            acc == debt_sum(reg.costs@, reg.debts@.take(i as int), debtor, owner),
            0 <= acc <= i * MAX_CENTS,
        decreases reg.debts@.len() - i,
    {
        proof {
            lemma_debt_sum_step(reg.costs@, reg.debts@, debtor, owner, i as int);
            lemma_debt_contrib_bounds_in(reg.costs@, reg.debts@, i as int, debtor, owner);
        }
        let d = reg.debts[i];
        if d.debtor_account_id == debtor {
            match find_cost(&reg.costs, d.cost_id) {
                Some(ci) => {
                    proof {
                        let w = cost_index_of(reg.costs@, d.cost_id);
                        assert(reg.costs@[w].id == d.cost_id);
                        assert(ci as int == w);
                    }
                    if reg.costs[ci].account_id == owner {
                        let share = crate::model::share_amount(reg.costs[ci].amount, &d.share);
                        acc = acc + share as i128;
                    }
                },
                None => {
                },
            }
        }
        i = i + 1;
    }
    proof {
        assert(reg.debts@.take(reg.debts@.len() as int) =~= reg.debts@);
    }
    acc
}

// The symmetric partition, keyed by debtor for one fixed owner.

/// Sums of `debt_sum` over a list of distinct debtor keys.
pub open spec fn debtor_key_sums(
    costs: Seq<Cost>,
    debts: Seq<Debt>,
    owner: u64,
    keys: Seq<u64>,
) -> int
    decreases keys.len(),
{
    if keys.len() == 0 {
        0
    } else {
        debtor_key_sums(costs, debts, owner, keys.drop_last()) + debt_sum(
            costs,
            debts,
            keys.last(),
            owner,
        )
    }
}

spec fn keys_contrib_d(costs: Seq<Cost>, d: Debt, owner: u64, keys: Seq<u64>) -> int
    decreases keys.len(),
{
    if keys.len() == 0 {
        0
    } else {
        keys_contrib_d(costs, d, owner, keys.drop_last()) + debt_contrib(
            costs,
            d,
            keys.last(),
            owner,
        )
    }
}

proof fn lemma_keys_contrib_d_zero(costs: Seq<Cost>, d: Debt, owner: u64, keys: Seq<u64>)
    requires
        forall|i: int| 0 <= i < keys.len() ==> keys[i] != d.debtor_account_id,
    ensures
        keys_contrib_d(costs, d, owner, keys) == 0,
    decreases keys.len(),
{
    if keys.len() > 0 {
        assert(forall|i: int|
            0 <= i < keys.drop_last().len() ==> (#[trigger] keys.drop_last()[i]) == keys[i]);
        lemma_keys_contrib_d_zero(costs, d, owner, keys.drop_last());
        assert(keys[keys.len() - 1] == keys.last());
    }
}

proof fn lemma_keys_contrib_d_bound(costs: Seq<Cost>, d: Debt, owner: u64, keys: Seq<u64>)
    requires
        tables_valid(costs, seq![d]),
        forall|i: int, j: int| 0 <= i < j < keys.len() ==> keys[i] != keys[j],
    ensures
        0 <= keys_contrib_d(costs, d, owner, keys) <= debt_contrib(
            costs,
            d,
            d.debtor_account_id,
            owner,
        ),
    decreases keys.len(),
{
    lemma_debt_contrib_bounds(costs, d, d.debtor_account_id, owner);
    if keys.len() > 0 {
        assert(forall|i: int|
            0 <= i < keys.drop_last().len() ==> (#[trigger] keys.drop_last()[i]) == keys[i]);
        if keys.last() == d.debtor_account_id {
            lemma_keys_contrib_d_zero(costs, d, owner, keys.drop_last());
        } else {
            lemma_keys_contrib_d_bound(costs, d, owner, keys.drop_last());
        }
    }
}

proof fn lemma_debtor_key_sums_step(costs: Seq<Cost>, debts: Seq<Debt>, owner: u64, keys: Seq<u64>)
    requires
        debts.len() > 0,
    ensures
        debtor_key_sums(costs, debts, owner, keys) == debtor_key_sums(
            costs,
            debts.drop_last(),
            owner,
            keys,
        ) + keys_contrib_d(costs, debts.last(), owner, keys),
    decreases keys.len(),
{
    if keys.len() > 0 {
        lemma_debtor_key_sums_step(costs, debts, owner, keys.drop_last());
    }
}

proof fn lemma_debtor_key_sums_zero(costs: Seq<Cost>, debts: Seq<Debt>, owner: u64, keys: Seq<u64>)
    requires
        debts.len() == 0,
    ensures
        debtor_key_sums(costs, debts, owner, keys) == 0,
    decreases keys.len(),
{
    if keys.len() > 0 {
        lemma_debtor_key_sums_zero(costs, debts, owner, keys.drop_last());
    }
}

/// Total cents anyone owes `owner` through shares of `owner`'s costs.
pub open spec fn owner_credit_total(costs: Seq<Cost>, debts: Seq<Debt>, owner: u64) -> int
    decreases debts.len(),
{
    if debts.len() == 0 {
        0
    } else {
        owner_credit_total(costs, debts.drop_last(), owner) + debt_contrib(
            costs,
            debts.last(),
            debts.last().debtor_account_id,
            owner,
        )
    }
}

/// Distinct debtors partition the owner's claims.
pub proof fn lemma_debtor_key_sums_bound(
    costs: Seq<Cost>,
    debts: Seq<Debt>,
    owner: u64,
    keys: Seq<u64>,
)
    requires
        tables_valid(costs, debts),
        forall|i: int, j: int| 0 <= i < j < keys.len() ==> keys[i] != keys[j],
    ensures
        0 <= debtor_key_sums(costs, debts, owner, keys) <= owner_credit_total(costs, debts, owner),
    decreases debts.len(),
{
    if debts.len() == 0 {
        lemma_debtor_key_sums_zero(costs, debts, owner, keys);
    } else {
        assert(tables_valid(costs, debts.drop_last())) by {
            assert(forall|i: int|
                0 <= i < debts.drop_last().len() ==> (#[trigger] debts.drop_last()[i])
                    == debts[i]);
        }
        lemma_debtor_key_sums_bound(costs, debts.drop_last(), owner, keys);
        lemma_debtor_key_sums_step(costs, debts, owner, keys);
        assert(tables_valid(costs, seq![debts.last()])) by {
            assert(seq![debts.last()][0] == debts.last());
            assert(debts[debts.len() - 1] == debts.last());
        }
        lemma_keys_contrib_d_bound(costs, debts.last(), owner, keys);
    }
}

/// The owner's total claim stays under one `MAX_CENTS` per debt.
pub proof fn lemma_owner_credit_total_bound(costs: Seq<Cost>, debts: Seq<Debt>, owner: u64)
    requires
        tables_valid(costs, debts),
    ensures
        0 <= owner_credit_total(costs, debts, owner) <= debts.len() * MAX_CENTS,
    decreases debts.len(),
{
    if debts.len() > 0 {
        assert(tables_valid(costs, debts.drop_last())) by {
            assert(forall|i: int|
                0 <= i < debts.drop_last().len() ==> (#[trigger] debts.drop_last()[i])
                    == debts[i]);
        }
        lemma_owner_credit_total_bound(costs, debts.drop_last(), owner);
        lemma_debt_contrib_bounds_in(
            costs,
            debts,
            debts.len() - 1,
            debts.last().debtor_account_id,
            owner,
        );
        assert(debts[debts.len() - 1] == debts.last());
    }
}

/// How much `account_id` owes each account that fronted costs it has
/// shares in: one pair per such account, keyed by that account.
#[verifier::loop_isolation(false)]
pub fn get_debts_for_account(reg: &Registry, account_id: u64) -> (r: Result<
    Vec<(u64, i128)>,
    AppError,
>)
    requires
        reg.ids_ok(),
        reg.values_ok(),
    ensures
        r is Ok,
        forall|i: int, j: int|
            0 <= i < j < r->Ok_0@.len() ==> (#[trigger] r->Ok_0@[i]).0 != (#[trigger] r->Ok_0@[j]).0,
        forall|b: u64|
            #[trigger] sum_pairs(r->Ok_0@, b) == debt_sum(reg.costs@, reg.debts@, account_id, b),
        forall|b: u64|
            #[trigger] pairs_contain(r->Ok_0@, b) <==> has_debt_between(
                reg.costs@,
                reg.debts@,
                account_id,
                b,
            ),
        pair_abs_sum(r->Ok_0@) <= reg.debts@.len() * MAX_CENTS,
{
    let mut keys: Vec<u64> = Vec::new();
    let mut i: usize = 0;
    while i < reg.debts.len()
        invariant
            0 <= i <= reg.debts@.len(),
            forall|a: int, b: int| 0 <= a < b < keys@.len() ==> keys@[a] != keys@[b],
            forall|x: u64|
                #[trigger] keys@.contains(x) <==> exists|j: int|
                    0 <= j < i && (#[trigger] reg.debts@[j]).debtor_account_id == account_id
                        && has_cost_id(reg.costs@, reg.debts@[j].cost_id) && reg.costs@[
                        cost_index_of(reg.costs@, reg.debts@[j].cost_id)
                    ].account_id == x,
        decreases reg.debts@.len() - i,
    {
        let d = reg.debts[i];
        if d.debtor_account_id == account_id {
            match find_cost(&reg.costs, d.cost_id) {
                Some(ci) => {
                    proof {
                        let w = cost_index_of(reg.costs@, d.cost_id);
                        assert(reg.costs@[w].id == d.cost_id);
                        assert(ci as int == w);
                    }
                    push_unique_u64(&mut keys, reg.costs[ci].account_id);
                },
                None => {
                },
            }
        }
        i = i + 1;
    }
    let ghost all_keys = keys@;
    proof {
        assert forall|b: u64|
            all_keys.contains(b) <==> has_debt_between(
            reg.costs@,
            reg.debts@,
            account_id,
            b,
        ) by {}
    }
    let mut out: Vec<(u64, i128)> = Vec::new();
    let mut t: usize = 0;
    while t < keys.len()
        invariant
            0 <= t <= keys@.len(),
            keys@ == all_keys,
            out@.len() == t,
            forall|u: int|
                0 <= u < t ==> (#[trigger] out@[u]) == (
                    keys@[u],
                    debt_sum(reg.costs@, reg.debts@, account_id, keys@[u]) as i128,
                ),
            pair_abs_sum(out@) == owner_key_sums(
                reg.costs@,
                reg.debts@,
                account_id,
                keys@.take(t as int),
            ),
        decreases keys@.len() - t,
    {
        let v = scan_debt_sum(reg, account_id, keys[t]);
        let ghost before = out@;
        out.push((keys[t], v));
        proof {
            assert(out@.drop_last() =~= before);
            assert(keys@.take(t as int + 1).drop_last() =~= keys@.take(t as int));
        }
        t = t + 1;
    }
    proof {
        assert(keys@.take(keys@.len() as int) =~= keys@);
        lemma_owner_key_sums_bound(reg.costs@, reg.debts@, account_id, all_keys);
        lemma_debtor_share_total_bound(reg.costs@, reg.debts@, account_id);
        assert forall|a: int, b: int|
            0 <= a < b < out@.len() implies (#[trigger] out@[a]).0 != (#[trigger] out@[b]).0 by {
            assert(out@[a].0 == all_keys[a] && out@[b].0 == all_keys[b]);
        }
        assert forall|b: u64|
            #[trigger] pairs_contain(out@, b) <==> has_debt_between(
            reg.costs@,
            reg.debts@,
            account_id,
            b,
        ) by {
            if pairs_contain(out@, b) {
                let u = choose|u: int| 0 <= u < out@.len() && out@[u].0 == b;
                assert(all_keys[u] == b);
                assert(all_keys.contains(b));
            }
            if has_debt_between(reg.costs@, reg.debts@, account_id, b) {
                assert(all_keys.contains(b));
                let u = choose|u: int| 0 <= u < all_keys.len() && all_keys[u] == b;
                assert(out@[u].0 == b);
            }
        }
        assert forall|b: u64|
            #[trigger] sum_pairs(out@, b) == debt_sum(
            reg.costs@,
            reg.debts@,
            account_id,
            b,
        ) by {
            crate::netting::lemma_sum_pairs_eval(out@, b);
            lemma_debt_sum_bounds(reg.costs@, reg.debts@, account_id, b);
            assert(reg.debts@.len() * MAX_CENTS < 0x7fff_ffff_ffff_ffff_ffff_ffff_ffff_ffff)
                by (nonlinear_arith)
                requires reg.debts@.len() <= 0xffff_ffff_ffff_ffffu64;
            if pairs_contain(out@, b) {
                let u = choose|u: int| 0 <= u < out@.len() && out@[u].0 == b;
                assert(sum_pairs(out@, b) == out@[u].1);
            } else {
                lemma_debt_sum_no_match(reg.costs@, reg.debts@, account_id, b);
            }
        }
    }
    Ok(out)
}

/// How much each debtor owes `account_id` through shares of costs it
/// fronted: one pair per debtor, keyed by the debtor.
#[verifier::loop_isolation(false)]
pub fn get_debts_of_account(reg: &Registry, account_id: u64) -> (r: Result<
    Vec<(u64, i128)>,
    AppError,
>)
    requires
        reg.ids_ok(),
        reg.values_ok(),
    ensures
        r is Ok,
        forall|i: int, j: int|
            0 <= i < j < r->Ok_0@.len() ==> (#[trigger] r->Ok_0@[i]).0 != (#[trigger] r->Ok_0@[j]).0,
        forall|b: u64|
            #[trigger] sum_pairs(r->Ok_0@, b) == debt_sum(reg.costs@, reg.debts@, b, account_id),
        forall|b: u64|
            #[trigger] pairs_contain(r->Ok_0@, b) <==> has_debt_between(
                reg.costs@,
                reg.debts@,
                b,
                account_id,
            ),
        pair_abs_sum(r->Ok_0@) <= reg.debts@.len() * MAX_CENTS,
{
    let mut keys: Vec<u64> = Vec::new();
    let mut i: usize = 0;
    while i < reg.debts.len()
        invariant
            0 <= i <= reg.debts@.len(),
            forall|a: int, b: int| 0 <= a < b < keys@.len() ==> keys@[a] != keys@[b],
            forall|x: u64|
                #[trigger] keys@.contains(x) <==> exists|j: int|
                    0 <= j < i && (#[trigger] reg.debts@[j]).debtor_account_id == x && has_cost_id(
                        reg.costs@,
                        reg.debts@[j].cost_id,
                    ) && reg.costs@[cost_index_of(reg.costs@, reg.debts@[j].cost_id)].account_id
                        == account_id,
        decreases reg.debts@.len() - i,
    {
        let d = reg.debts[i];
        match find_cost(&reg.costs, d.cost_id) {
            Some(ci) => {
                proof {
                    let w = cost_index_of(reg.costs@, d.cost_id);
                    assert(reg.costs@[w].id == d.cost_id);
                    assert(ci as int == w);
                }
                if reg.costs[ci].account_id == account_id {
                    push_unique_u64(&mut keys, d.debtor_account_id);
                }
            },
            None => {
            },
        }
        i = i + 1;
    }
    let ghost all_keys = keys@;
    proof {
        assert forall|b: u64|
            all_keys.contains(b) <==> has_debt_between(
            reg.costs@,
            reg.debts@,
            b,
            account_id,
        ) by {}
    }
    let mut out: Vec<(u64, i128)> = Vec::new();
    let mut t: usize = 0;
    while t < keys.len()
        invariant
            0 <= t <= keys@.len(),
            keys@ == all_keys,
            out@.len() == t,
            forall|u: int|
                0 <= u < t ==> (#[trigger] out@[u]) == (
                    keys@[u],
                    debt_sum(reg.costs@, reg.debts@, keys@[u], account_id) as i128,
                ),
            pair_abs_sum(out@) == debtor_key_sums(
                reg.costs@,
                reg.debts@,
                account_id,
                keys@.take(t as int),
            ),
        decreases keys@.len() - t,
    {
        let v = scan_debt_sum(reg, keys[t], account_id);
        let ghost before = out@;
        out.push((keys[t], v));
        proof {
            assert(out@.drop_last() =~= before);
            assert(keys@.take(t as int + 1).drop_last() =~= keys@.take(t as int));
        }
        t = t + 1;
    }
    proof {
        assert(keys@.take(keys@.len() as int) =~= keys@);
        lemma_debtor_key_sums_bound(reg.costs@, reg.debts@, account_id, all_keys);
        lemma_owner_credit_total_bound(reg.costs@, reg.debts@, account_id);
        assert forall|a: int, b: int|
            0 <= a < b < out@.len() implies (#[trigger] out@[a]).0 != (#[trigger] out@[b]).0 by {
            assert(out@[a].0 == all_keys[a] && out@[b].0 == all_keys[b]);
        }
        assert forall|b: u64|
            #[trigger] pairs_contain(out@, b) <==> has_debt_between(
            reg.costs@,
            reg.debts@,
            b,
            account_id,
        ) by {
            if pairs_contain(out@, b) {
                let u = choose|u: int| 0 <= u < out@.len() && out@[u].0 == b;
                assert(all_keys[u] == b);
                assert(all_keys.contains(b));
            }
            if has_debt_between(reg.costs@, reg.debts@, b, account_id) {
                assert(all_keys.contains(b));
                let u = choose|u: int| 0 <= u < all_keys.len() && all_keys[u] == b;
                assert(out@[u].0 == b);
            }
        }
        assert forall|b: u64|
            #[trigger] sum_pairs(out@, b) == debt_sum(
            reg.costs@,
            reg.debts@,
            b,
            account_id,
        ) by {
            crate::netting::lemma_sum_pairs_eval(out@, b);
            lemma_debt_sum_bounds(reg.costs@, reg.debts@, b, account_id);
            assert(reg.debts@.len() * MAX_CENTS < 0x7fff_ffff_ffff_ffff_ffff_ffff_ffff_ffff)
                by (nonlinear_arith)
                requires reg.debts@.len() <= 0xffff_ffff_ffff_ffffu64;
            if pairs_contain(out@, b) {
                let u = choose|u: int| 0 <= u < out@.len() && out@[u].0 == b;
                assert(sum_pairs(out@, b) == out@[u].1);
            } else {
                lemma_debt_sum_no_match(reg.costs@, reg.debts@, b, account_id);
            }
        }
    }
    Ok(out)
}

// ------------------------------------------------------------------
// The netting engine.

/// Every account id any of the four contribution lists records,
/// each exactly once.
#[verifier::loop_isolation(false)]
fn collect_counterparties(
    payed_payments: &Vec<Payment>,
    given_payments: &Vec<Payment>,
    to_pay: &Vec<(u64, i128)>,
    being_paid: &Vec<(u64, i128)>,
) -> (keys: Vec<u64>)
    ensures
        forall|a: int, b: int| 0 <= a < b < keys@.len() ==> keys@[a] != keys@[b],
        forall|x: u64|
            #[trigger] keys@.contains(x) <==> is_counterparty(
                payed_payments@,
                given_payments@,
                to_pay@,
                being_paid@,
                x,
            ),
{
    let mut keys: Vec<u64> = Vec::new();
    let mut keys: Vec<u64> = Vec::new();
    let mut i: usize = 0;
    while i < payed_payments.len()
        invariant
            0 <= i <= payed_payments@.len(),
            forall|a: int, b: int| 0 <= a < b < keys@.len() ==> keys@[a] != keys@[b],
            forall|x: u64|
                #[trigger] keys@.contains(x) <==> exists|j: int|
                    0 <= j < i && (#[trigger] payed_payments@[j]).lender_account_id == x,
        decreases payed_payments@.len() - i,
    {
        push_unique_u64(&mut keys, payed_payments[i].lender_account_id);
        i = i + 1;
    }
    let mut i: usize = 0;
    while i < given_payments.len()
        invariant
            0 <= i <= given_payments@.len(),
            forall|a: int, b: int| 0 <= a < b < keys@.len() ==> keys@[a] != keys@[b],
            forall|x: u64|
                #[trigger] keys@.contains(x) <==> (exists|j: int|
                    0 <= j < payed_payments@.len() && (#[trigger] payed_payments@[j]).lender_account_id
                        == x) || (exists|j: int|
                    0 <= j < i && (#[trigger] given_payments@[j]).payer_account_id == x),
        decreases given_payments@.len() - i,
    {
        push_unique_u64(&mut keys, given_payments[i].payer_account_id);
        i = i + 1;
    }
    let mut i: usize = 0;
    while i < to_pay.len()
        invariant
            0 <= i <= to_pay@.len(),
            forall|a: int, b: int| 0 <= a < b < keys@.len() ==> keys@[a] != keys@[b],
            forall|x: u64|
                #[trigger] keys@.contains(x) <==> (exists|j: int|
                    0 <= j < payed_payments@.len() && (#[trigger] payed_payments@[j]).lender_account_id
                        == x) || (exists|j: int|
                    0 <= j < given_payments@.len() && (#[trigger] given_payments@[j]).payer_account_id
                        == x) || (exists|j: int| 0 <= j < i && (#[trigger] to_pay@[j]).0 == x),
        decreases to_pay@.len() - i,
    {
        push_unique_u64(&mut keys, to_pay[i].0);
        i = i + 1;
    }
    let mut i: usize = 0;
    while i < being_paid.len()
        invariant
            0 <= i <= being_paid@.len(),
            forall|a: int, b: int| 0 <= a < b < keys@.len() ==> keys@[a] != keys@[b],
            forall|x: u64|
                #[trigger] keys@.contains(x) <==> (exists|j: int|
                    0 <= j < payed_payments@.len() && (#[trigger] payed_payments@[j]).lender_account_id
                        == x) || (exists|j: int|
                    0 <= j < given_payments@.len() && (#[trigger] given_payments@[j]).payer_account_id
                        == x) || pairs_contain(to_pay@, x) || (exists|j: int|
                    0 <= j < i && (#[trigger] being_paid@[j]).0 == x),
        decreases being_paid@.len() - i,
    {
        push_unique_u64(&mut keys, being_paid[i].0);
        i = i + 1;
    }
    proof {
        assert forall|x: u64|
            #[trigger] keys@.contains(x) <==> is_counterparty(
            payed_payments@,
            given_payments@,
            to_pay@,
            being_paid@,
            x,
        ) by {}
    }
    keys
}

/// The net balance toward one counterparty, by four scans.
#[verifier::loop_isolation(false)]
fn net_for(
    payed_payments: &Vec<Payment>,
    given_payments: &Vec<Payment>,
    to_pay: &Vec<(u64, i128)>,
    being_paid: &Vec<(u64, i128)>,
    k: u64,
) -> (net: i128)
    requires
        payments_bounded(payed_payments@),
        payments_bounded(given_payments@),
        pair_abs_sum(to_pay@) <= SHARE_SUM_CAP,
        pair_abs_sum(being_paid@) <= SHARE_SUM_CAP,
    ensures
        net as int == net_balance(payed_payments@, given_payments@, to_pay@, being_paid@, k),
{
    let n1 = payed_payments.len();
    let n2 = given_payments.len();
    proof {
        assert(n1 * MAX_CENTS <= SHARE_SUM_CAP) by (nonlinear_arith)
            requires
                n1 <= 0xffff_ffff_ffff_ffffu64,
        ;
        assert(n2 * MAX_CENTS <= SHARE_SUM_CAP) by (nonlinear_arith)
            requires
                n2 <= 0xffff_ffff_ffff_ffffu64,
        ;
    }
    let paid_to = scan_paid_to(payed_payments, k);
    let paid_from = scan_paid_from(given_payments, k);
    let shares_in = scan_pairs(being_paid, k);
    let shares_out = scan_pairs(to_pay, k);
    paid_to - paid_from + shares_in - shares_out
}

/// One netting step: extends `accumulated_debts` with one entry per
/// registered counterparty of `payer_account`, holding the net cents
/// of the payer's claim on it.  Counterparties without an account in
/// `accounts`, and the payer itself, are skipped; every other one gets
/// exactly one entry, whose amount is `net_balance` of the four
/// contribution lists.  Net amounts may be positive, negative or zero;
/// zero entries are kept.
#[verifier::loop_isolation(false)]
#[verifier::rlimit(100)]
pub fn accumulate_costs(
    payed_payments: &Vec<Payment>,
    given_payments: &Vec<Payment>,
    to_pay: &Vec<(u64, i128)>,
    being_paid: &Vec<(u64, i128)>,
    accounts: &Vec<Account>,
    payer_account: &Account,
    accumulated_debts: Vec<CalculatedDebtDto>,
) -> (r: Vec<CalculatedDebtDto>)
    requires
        payments_bounded(payed_payments@),
        payments_bounded(given_payments@),
        pair_abs_sum(to_pay@) <= SHARE_SUM_CAP,
        pair_abs_sum(being_paid@) <= SHARE_SUM_CAP,
    ensures
        r@.len() >= accumulated_debts@.len(),
        r@.take(accumulated_debts@.len() as int) == accumulated_debts@,
        forall|t: int|
            accumulated_debts@.len() <= t < r@.len() ==> {
                &&& (#[trigger] r@[t]).payer_account == account_dto_of(*payer_account)
                &&& r@[t].lender_account.id != payer_account.id
                &&& exists|j: int|
                    0 <= j < accounts@.len() && (#[trigger] accounts@[j]).id
                        == r@[t].lender_account.id && r@[t].lender_account == account_dto_of(
                        accounts@[j],
                    )
                &&& r@[t].amount as int == net_balance(
                    payed_payments@,
                    given_payments@,
                    to_pay@,
                    being_paid@,
                    r@[t].lender_account.id,
                )
                &&& is_counterparty(
                    payed_payments@,
                    given_payments@,
                    to_pay@,
                    being_paid@,
                    r@[t].lender_account.id,
                )
            },
        forall|t1: int, t2: int|
            accumulated_debts@.len() <= t1 < t2 < r@.len() ==> (#[trigger] r@[t1]).lender_account.id
                != (#[trigger] r@[t2]).lender_account.id,
        forall|b: u64|
            is_counterparty(payed_payments@, given_payments@, to_pay@, being_paid@, b)
                && has_account_id(accounts@, b) && b != payer_account.id ==> exists|t: int|
                accumulated_debts@.len() <= t < r@.len() && (#[trigger] r@[t]).lender_account.id
                    == b,
{
    // Gather every account id any of the four lists records.
    let keys = collect_counterparties(payed_payments, given_payments, to_pay, being_paid);
    let ghost all_keys = keys@;
    // Emit one entry per counterparty that is a registered account
    // other than the payer itself.
    let mut r = accumulated_debts;
    let ghost base_len = r@.len() as int;
    let mut t: usize = 0;
    while t < keys.len()
        invariant
            0 <= t <= keys@.len(),
            keys@ == all_keys,
            r@.len() >= base_len,
            r@.take(base_len) == accumulated_debts@,
            forall|u: int|
                base_len <= u < r@.len() ==> {
                    &&& (#[trigger] r@[u]).payer_account == account_dto_of(*payer_account)
                    &&& r@[u].lender_account.id != payer_account.id
                    &&& exists|j: int|
                        0 <= j < accounts@.len() && (#[trigger] accounts@[j]).id
                            == r@[u].lender_account.id && r@[u].lender_account == account_dto_of(
                            accounts@[j],
                        )
                    &&& r@[u].amount as int == net_balance(
                        payed_payments@,
                        given_payments@,
                        to_pay@,
                        being_paid@,
                        r@[u].lender_account.id,
                    )
                    &&& exists|kk: int| 0 <= kk < t && keys@[kk] == r@[u].lender_account.id
                },
            forall|u1: int, u2: int|
                base_len <= u1 < u2 < r@.len() ==> (#[trigger] r@[u1]).lender_account.id != (
                #[trigger] r@[u2]).lender_account.id,
            forall|kk: int|
                0 <= kk < t && has_account_id(accounts@, #[trigger] keys@[kk]) && keys@[kk]
                    != payer_account.id ==> exists|u: int|
                    base_len <= u < r@.len() && (#[trigger] r@[u]).lender_account.id == keys@[kk],
        decreases keys@.len() - t,
    {
        let k = keys[t];
        match find_account(accounts, k) {
            None => {
            },
            Some(j) => {
                if accounts[j].id != payer_account.id {
                    let net: i128 = net_for(payed_payments, given_payments, to_pay, being_paid, k);
                    let ghost before = r@;
                    r.push(
                        CalculatedDebtDto {
                            payer_account: account_to_dto(payer_account),
                            lender_account: account_to_dto(&accounts[j]),
                            amount: net,
                        },
                    );
                    proof {
                        assert(r@.take(base_len) =~= before.take(base_len));
                        assert(forall|u: int| base_len <= u < before.len() ==> r@[u] == before[u]);
                        assert(r@[r@.len() - 1].lender_account.id == k);
                        assert forall|u1: int, u2: int|
                            base_len <= u1 < u2 < r@.len() implies (
                        #[trigger] r@[u1]).lender_account.id != (
                        #[trigger] r@[u2]).lender_account.id by {
                            if u2 == r@.len() - 1 {
                                assert(r@[u2].lender_account.id == keys@[t as int]);
                                let kk = choose|kk: int|
                                    0 <= kk < t && keys@[kk] == r@[u1].lender_account.id;
                                assert(keys@[kk] != keys@[t as int]);
                            } else {
                                assert(r@[u1] == before[u1] && r@[u2] == before[u2]);
                            }
                        }
                        assert forall|kk: int|
                            0 <= kk < t + 1 && has_account_id(accounts@, #[trigger] keys@[kk])
                                && keys@[kk] != payer_account.id implies exists|u: int|
                            base_len <= u < r@.len() && (#[trigger] r@[u]).lender_account.id
                                == keys@[kk] by {
                            if kk == t {
                                assert(r@[r@.len() - 1].lender_account.id == keys@[kk]);
                            } else {
                                let u = choose|u: int|
                                    base_len <= u < before.len() && (
                                    #[trigger] before[u]).lender_account.id == keys@[kk];
                                assert(r@[u].lender_account.id == keys@[kk]);
                            }
                        }
                    }
                }
            },
        }
        t = t + 1;
    }
    proof {
        assert(r@.take(base_len) == accumulated_debts@);
        assert forall|u: int|
            base_len <= u < r@.len() implies is_counterparty(
            payed_payments@,
            given_payments@,
            to_pay@,
            being_paid@,
            (#[trigger] r@[u]).lender_account.id,
        ) by {
            let kk = choose|kk: int|
                0 <= kk < keys@.len() && keys@[kk] == r@[u].lender_account.id;
            assert(all_keys.contains(r@[u].lender_account.id));
        }
        assert forall|b: u64|
            is_counterparty(payed_payments@, given_payments@, to_pay@, being_paid@, b)
                && has_account_id(accounts@, b) && b != payer_account.id implies exists|u: int|
            base_len <= u < r@.len() && (#[trigger] r@[u]).lender_account.id == b by {
            assert(all_keys.contains(b));
            let kk = choose|kk: int| 0 <= kk < all_keys.len() && all_keys[kk] == b;
        }
    }
    r
}

/// The net cents `a`'s claim on `b` comes to over the whole registry:
/// payments `a` made to `b`, minus payments `b` made to `a`, plus
/// `b`'s shares of costs `a` fronted, minus `a`'s shares of costs `b`
/// fronted.
pub open spec fn global_net(reg: Registry, a: u64, b: u64) -> int {
    sum_paid_to(payments_from(reg.payments@, a), b) - sum_paid_from(
        payments_to(reg.payments@, a),
        b,
    ) + debt_sum(reg.costs@, reg.debts@, b, a) - debt_sum(reg.costs@, reg.debts@, a, b)
}

/// Whether the registry records anything at all between `a` and `b`.
pub open spec fn has_interaction(reg: Registry, a: u64, b: u64) -> bool {
    ||| exists|i: int|
        0 <= i < reg.payments@.len() && (#[trigger] reg.payments@[i]).payer_account_id == a
            && reg.payments@[i].lender_account_id == b
    ||| exists|i: int|
        0 <= i < reg.payments@.len() && (#[trigger] reg.payments@[i]).payer_account_id == b
            && reg.payments@[i].lender_account_id == a
    ||| has_debt_between(reg.costs@, reg.debts@, b, a)
    ||| has_debt_between(reg.costs@, reg.debts@, a, b)
}

/// Payments selected out of a validated table stay validated.
proof fn lemma_bounded_select(ps: Seq<Payment>, a: u64)
    requires
        payments_bounded(ps),
    ensures
        payments_bounded(payments_from(ps, a)),
        payments_bounded(payments_to(ps, a)),
{
    lemma_payments_select_elems(ps, a);
    let from = payments_from(ps, a);
    let to = payments_to(ps, a);
    assert forall|x: int| 0 <= x < from.len() implies (#[trigger] from[x]).valid() by {
        assert(from.contains(from[x]));
        let w = choose|w: int| 0 <= w < ps.len() && ps[w] == from[x];
    }
    assert forall|x: int| 0 <= x < to.len() implies (#[trigger] to[x]).valid() by {
        assert(to.contains(to[x]));
        let w = choose|w: int| 0 <= w < ps.len() && ps[w] == to[x];
    }
}

/// A recorded interaction of `a_id` with `b` makes `b` a counterparty
/// of the four contribution lists fetched for `a_id`.
proof fn lemma_interaction_counterparty(
    reg: Registry,
    a_id: u64,
    payed: Seq<Payment>,
    given: Seq<Payment>,
    to_pay: Seq<(u64, i128)>,
    being_paid: Seq<(u64, i128)>,
    b: u64,
)
    requires
        payed == payments_from(reg.payments@, a_id),
        given == payments_to(reg.payments@, a_id),
        pairs_contain(to_pay, b) <==> has_debt_between(reg.costs@, reg.debts@, a_id, b),
        pairs_contain(being_paid, b) <==> has_debt_between(reg.costs@, reg.debts@, b, a_id),
        has_interaction(reg, a_id, b),
    ensures
        is_counterparty(payed, given, to_pay, being_paid, b),
{
    lemma_payments_select_elems(reg.payments@, a_id);
    if exists|w: int|
        0 <= w < reg.payments@.len() && (#[trigger] reg.payments@[w]).payer_account_id == a_id
            && reg.payments@[w].lender_account_id == b {
        let w = choose|w: int|
            0 <= w < reg.payments@.len() && (#[trigger] reg.payments@[w]).payer_account_id == a_id
                && reg.payments@[w].lender_account_id == b;
        assert(reg.payments@.contains(reg.payments@[w]));
        assert(payed.contains(reg.payments@[w]));
        let x = choose|x: int| 0 <= x < payed.len() && payed[x] == reg.payments@[w];
        assert(payed[x].lender_account_id == b);
    } else if exists|w: int|
        0 <= w < reg.payments@.len() && (#[trigger] reg.payments@[w]).payer_account_id == b
            && reg.payments@[w].lender_account_id == a_id {
        let w = choose|w: int|
            0 <= w < reg.payments@.len() && (#[trigger] reg.payments@[w]).payer_account_id == b
                && reg.payments@[w].lender_account_id == a_id;
        assert(reg.payments@.contains(reg.payments@[w]));
        assert(given.contains(reg.payments@[w]));
        let x = choose|x: int| 0 <= x < given.len() && given[x] == reg.payments@[w];
        assert(given[x].payer_account_id == b);
    } else if has_debt_between(reg.costs@, reg.debts@, b, a_id) {
        assert(pairs_contain(being_paid, b));
    } else {
        assert(has_debt_between(reg.costs@, reg.debts@, a_id, b));
        assert(pairs_contain(to_pay, b));
    }
}

/// One well-formed snapshot row: two distinct registered accounts,
/// and exactly the net cents the registry records between them.
pub open spec fn snapshot_entry_ok(reg: Registry, e: CalculatedDebtDto) -> bool {
    &&& e.payer_account.id != e.lender_account.id
    &&& exists|i: int|
        0 <= i < reg.accounts@.len() && (#[trigger] reg.accounts@[i]).id == e.payer_account.id
            && e.payer_account == account_dto_of(reg.accounts@[i])
    &&& exists|j: int|
        0 <= j < reg.accounts@.len() && (#[trigger] reg.accounts@[j]).id == e.lender_account.id
            && e.lender_account == account_dto_of(reg.accounts@[j])
    &&& e.amount as int == global_net(reg, e.payer_account.id, e.lender_account.id)
}

/// Fetches the four contribution lists of one account and folds them
/// into the accumulated snapshot.  Every appended entry names this
/// account as payer and nets the registry exactly.
#[verifier::loop_isolation(false)]
#[verifier::rlimit(100)]
#[verifier::spinoff_prover]
fn snapshot_step(
    reg: &Registry,
    accounts: &Vec<Account>,
    ai: usize,
    accumulated_debts: Vec<CalculatedDebtDto>,
) -> (r: Vec<CalculatedDebtDto>)
    requires
        reg.ids_ok(),
        reg.values_ok(),
        accounts@ == reg.accounts@,
        0 <= ai < reg.accounts@.len(),
    ensures
        r@.len() >= accumulated_debts@.len(),
        r@.take(accumulated_debts@.len() as int) == accumulated_debts@,
        forall|t: int|
            accumulated_debts@.len() <= t < r@.len() ==> snapshot_entry_ok(*reg, #[trigger] r@[t])
                && r@[t].payer_account.id == reg.accounts@[ai as int].id,
        forall|t1: int, t2: int|
            accumulated_debts@.len() <= t1 < t2 < r@.len() ==> (#[trigger] r@[t1]).lender_account.id
                != (#[trigger] r@[t2]).lender_account.id,
        forall|b: u64|
            has_account_id(reg.accounts@, b) && b != reg.accounts@[ai as int].id
                && has_interaction(*reg, reg.accounts@[ai as int].id, b) ==> exists|t: int|
                accumulated_debts@.len() <= t < r@.len() && (#[trigger] r@[t]).lender_account.id
                    == b,
{
    let account = &accounts[ai];
    let payed_payments = match crate::service::payment::get_for_account(reg, account.id) {
        Ok(v) => v,
        Err(_) => {
            proof {
                assert(false);
            }
            return accumulated_debts;
        },
    };
    let given_payments = match crate::service::payment::get_of_account(reg, account.id) {
        Ok(v) => v,
        Err(_) => {
            proof {
                assert(false);
            }
            return accumulated_debts;
        },
    };
    let to_pay = match get_debts_for_account(reg, account.id) {
        Ok(v) => v,
        Err(_) => {
            proof {
                assert(false);
            }
            return accumulated_debts;
        },
    };
    let being_paid = match get_debts_of_account(reg, account.id) {
        Ok(v) => v,
        Err(_) => {
            proof {
                assert(false);
            }
            return accumulated_debts;
        },
    };
    proof {
        lemma_bounded_select(reg.payments@, account.id);
    }
    let nd = reg.debts.len();
    proof {
        assert(nd * MAX_CENTS <= SHARE_SUM_CAP) by (nonlinear_arith)
            requires
                nd <= 0xffff_ffff_ffff_ffffu64,
        ;
    }
    let ghost prev_len = accumulated_debts@.len() as int;
    let r = accumulate_costs(
        &payed_payments,
        &given_payments,
        &to_pay,
        &being_paid,
        accounts,
        account,
        accumulated_debts,
    );
    proof {
        let s = r@;
        let a_id = account.id;
        assert(*account == reg.accounts@[ai as int]);
        assert forall|t: int|
            prev_len <= t < s.len() implies snapshot_entry_ok(*reg, #[trigger] s[t])
            && s[t].payer_account.id == reg.accounts@[ai as int].id by {
            let b = s[t].lender_account.id;
            assert(s[t].payer_account == account_dto_of(reg.accounts@[ai as int]));
            assert(s[t].amount as int == net_balance(
                payed_payments@,
                given_payments@,
                to_pay@,
                being_paid@,
                b,
            ));
            assert(sum_pairs(to_pay@, b) == debt_sum(reg.costs@, reg.debts@, a_id, b));
            assert(sum_pairs(being_paid@, b) == debt_sum(reg.costs@, reg.debts@, b, a_id));
            assert(s[t].amount as int == global_net(*reg, a_id, b));
        }
        assert forall|b: u64|
            has_account_id(reg.accounts@, b) && b != a_id && has_interaction(
            *reg,
            a_id,
            b,
        ) implies exists|t: int|
            prev_len <= t < s.len() && (#[trigger] s[t]).lender_account.id == b by {
            lemma_interaction_counterparty(
                *reg,
                a_id,
                payed_payments@,
                given_payments@,
                to_pay@,
                being_paid@,
                b,
            );
        }
    }
    r
}



#[verifier::loop_isolation(false)]
#[verifier::rlimit(100)]
#[verifier::spinoff_prover]
fn compute_snapshot(reg: &Registry) -> (r: Vec<CalculatedDebtDto>)
    requires
        reg.ids_ok(),
        reg.values_ok(),
    ensures
        reg.accounts@.len() == 0 ==> r@.len() == 0,
        forall|t: int| 0 <= t < r@.len() ==> snapshot_entry_ok(*reg, #[trigger] r@[t]),
        forall|t1: int, t2: int|
            0 <= t1 < t2 < r@.len() ==> ((#[trigger] r@[t1]).payer_account.id != (
            #[trigger] r@[t2]).payer_account.id || r@[t1].lender_account.id
                != r@[t2].lender_account.id),
        forall|a: u64, b: u64|
            has_account_id(reg.accounts@, a) && has_account_id(reg.accounts@, b) && a != b
                && has_interaction(*reg, a, b) ==> exists|t: int|
                0 <= t < r@.len() && (#[trigger] r@[t]).payer_account.id == a
                    && r@[t].lender_account.id == b,
{
    let accounts = match crate::service::account::get_all(reg) {
        Ok(a) => a,
        Err(_) => {
            proof {
                assert(false);
            }
            return Vec::new();
        },
    };
    let mut all_debts: Vec<CalculatedDebtDto> = Vec::new();
    let mut ai: usize = 0;
    while ai < accounts.len()
        invariant
            0 <= ai <= accounts@.len(),
            accounts@ == reg.accounts@,
            ai == 0 ==> all_debts@.len() == 0,
            forall|t: int|
                0 <= t < all_debts@.len() ==> snapshot_entry_ok(*reg, #[trigger] all_debts@[t]),
            forall|t: int|
                0 <= t < all_debts@.len() ==> exists|i: int|
                    0 <= i < ai && (#[trigger] reg.accounts@[i]).id == (
                    #[trigger] all_debts@[t]).payer_account.id,
            forall|t1: int, t2: int|
                0 <= t1 < t2 < all_debts@.len() ==> ((#[trigger] all_debts@[t1]).payer_account.id
                    != (#[trigger] all_debts@[t2]).payer_account.id
                    || all_debts@[t1].lender_account.id != all_debts@[t2].lender_account.id),
            forall|i: int, b: u64|
                #![trigger reg.accounts@[i], has_account_id(reg.accounts@, b)]
                0 <= i < ai && has_account_id(reg.accounts@, b) && reg.accounts@[i].id != b
                    && has_interaction(*reg, reg.accounts@[i].id, b) ==> exists|t: int|
                    0 <= t < all_debts@.len() && (#[trigger] all_debts@[t]).payer_account.id
                        == reg.accounts@[i].id && all_debts@[t].lender_account.id == b,
        decreases accounts@.len() - ai,
    {
        let ghost prev_len = all_debts@.len() as int;
        let ghost prev_debts = all_debts@;
        all_debts = snapshot_step(reg, &accounts, ai, all_debts);
        proof {
            let s = all_debts@;
            let a_id = reg.accounts@[ai as int].id;
            assert forall|t: int| 0 <= t < prev_len implies s[t] == prev_debts[t] by {
                assert(s.take(prev_len)[t] == s[t]);
            }
            assert forall|t1: int, t2: int|
                0 <= t1 < t2 < s.len() implies ((#[trigger] s[t1]).payer_account.id != (
            #[trigger] s[t2]).payer_account.id || s[t1].lender_account.id
                != s[t2].lender_account.id) by {
                if t1 < prev_len && t2 >= prev_len {
                    assert(s[t1] == prev_debts[t1]);
                    let i = choose|i: int|
                        0 <= i < ai && (#[trigger] reg.accounts@[i]).id
                            == prev_debts[t1].payer_account.id;
                    assert(reg.accounts@[i].id != reg.accounts@[ai as int].id);
                    assert(s[t2].payer_account.id == a_id);
                } else if t1 >= prev_len {
                    assert(s[t1].lender_account.id != s[t2].lender_account.id);
                } else {
                    assert(s[t1] == prev_debts[t1] && s[t2] == prev_debts[t2]);
                }
            }
            assert forall|i: int, b: u64|
                #![trigger reg.accounts@[i], has_account_id(reg.accounts@, b)]
                0 <= i < ai + 1 && has_account_id(reg.accounts@, b) && reg.accounts@[i].id != b
                    && has_interaction(*reg, reg.accounts@[i].id, b) implies exists|t: int|
                0 <= t < s.len() && (#[trigger] s[t]).payer_account.id == reg.accounts@[i].id
                    && s[t].lender_account.id == b by {
                if i < ai {
                    let t = choose|t: int|
                        0 <= t < prev_debts.len() && (#[trigger] prev_debts[t]).payer_account.id
                            == reg.accounts@[i].id && prev_debts[t].lender_account.id == b;
                    assert(s[t] == prev_debts[t]);
                } else {
                    let t = choose|t: int|
                        prev_len <= t < s.len() && (#[trigger] s[t]).lender_account.id == b;
                    assert(s[t].payer_account.id == a_id);
                }
            }
        }
        ai = ai + 1;
    }
    proof {
        assert forall|a: u64, b: u64|
            has_account_id(reg.accounts@, a) && has_account_id(reg.accounts@, b) && a != b
                && has_interaction(*reg, a, b) implies exists|t: int|
            0 <= t < all_debts@.len() && (#[trigger] all_debts@[t]).payer_account.id == a
                && all_debts@[t].lender_account.id == b by {
            let i = choose|i: int|
                0 <= i < reg.accounts@.len() && (#[trigger] reg.accounts@[i]).id == a;
            assert(has_account_id(reg.accounts@, b));
        }
    }
    all_debts
}

/// The full snapshot: for every ordered pair of distinct registered
/// accounts with any recorded interaction, one entry with the exact
/// net balance.  An empty registry yields an empty snapshot, and no
/// entry ever pairs an account with itself.
pub fn get_current_snapshot(reg: &Registry) -> (r: Result<Vec<CalculatedDebtDto>, AppError>)
    requires
        reg.wf(),
    ensures
        r is Ok,
        reg.accounts@.len() == 0 ==> r->Ok_0@.len() == 0,
        forall|t: int|
            0 <= t < r->Ok_0@.len() ==> snapshot_entry_ok(*reg, #[trigger] r->Ok_0@[t]),
        forall|t1: int, t2: int|
            0 <= t1 < t2 < r->Ok_0@.len() ==> ((#[trigger] r->Ok_0@[t1]).payer_account.id != (
            #[trigger] r->Ok_0@[t2]).payer_account.id || r->Ok_0@[t1].lender_account.id
                != r->Ok_0@[t2].lender_account.id),
        forall|a: u64, b: u64|
            has_account_id(reg.accounts@, a) && has_account_id(reg.accounts@, b) && a != b
                && has_interaction(*reg, a, b) ==> exists|t: int|
                0 <= t < r->Ok_0@.len() && (#[trigger] r->Ok_0@[t]).payer_account.id == a
                    && r->Ok_0@[t].lender_account.id == b,
{
    let v = compute_snapshot(reg);
    let result: Result<Vec<CalculatedDebtDto>, AppError> = Ok(v);
    proof {
        assert forall|a: u64, b: u64|
            has_account_id(reg.accounts@, a) && has_account_id(reg.accounts@, b) && a != b
                && has_interaction(*reg, a, b) implies exists|t: int|
            0 <= t < result->Ok_0@.len() && (#[trigger] result->Ok_0@[t]).payer_account.id == a
                && result->Ok_0@[t].lender_account.id == b by {
            let w = choose|w: int|
                0 <= w < v@.len() && (#[trigger] v@[w]).payer_account.id == a
                    && v@[w].lender_account.id == b;
            assert(result->Ok_0@[w].payer_account.id == a);
        }
    }
    result
}

/// The costs in `costs` fronted by account `a`, in order.
pub open spec fn costs_of_account(costs: Seq<Cost>, a: u64) -> Seq<Cost>
    decreases costs.len(),
{
    if costs.len() == 0 {
        Seq::empty()
    } else {
        costs_of_account(costs.drop_last(), a) + if costs.last().account_id == a {
            seq![costs.last()]
        } else {
            Seq::empty()
        }
    }
}

proof fn lemma_costs_of_account_step(costs: Seq<Cost>, a: u64, i: int)
    requires
        0 <= i < costs.len(),
    ensures
        costs_of_account(costs.take(i + 1), a) == costs_of_account(costs.take(i), a) + if costs[
            i
        ].account_id == a {
            seq![costs[i]]
        } else {
            Seq::empty()
        },
{
    assert(costs.take(i + 1).drop_last() =~= costs.take(i));
    assert(costs.take(i + 1).last() == costs[i]);
}

/// All costs fronted by `account_id`, in creation order, copied field
/// by field.
#[verifier::loop_isolation(false)]
pub fn get_for_account(reg: &Registry, account_id: u64) -> (r: Result<Vec<Cost>, AppError>)
    ensures
        r is Ok,
        r->Ok_0@.len() == costs_of_account(reg.costs@, account_id).len(),
        forall|k: int|
            0 <= k < r->Ok_0@.len() ==> same_cost(
                #[trigger] r->Ok_0@[k],
                costs_of_account(reg.costs@, account_id)[k],
            ),
{
    let mut out: Vec<Cost> = Vec::new();
    let mut i: usize = 0;
    while i < reg.costs.len()
        invariant
            0 <= i <= reg.costs@.len(),
            out@.len() == costs_of_account(reg.costs@.take(i as int), account_id).len(),
            forall|k: int|
                0 <= k < out@.len() ==> same_cost(
                    #[trigger] out@[k],
                    costs_of_account(reg.costs@.take(i as int), account_id)[k],
                ),
        decreases reg.costs@.len() - i,
    {
        proof {
            lemma_costs_of_account_step(reg.costs@, account_id, i as int);
        }
        if reg.costs[i].account_id == account_id {
            out.push(copy_cost(&reg.costs[i]));
        }
        i = i + 1;
    }
    proof {
        assert(reg.costs@.take(reg.costs@.len() as int) =~= reg.costs@);
    }
    Ok(out)
}

// ------------------------------------------------------------------
// The joined cost listing.

/// The debt rows of one cost, resolved to response shapes.
pub open spec fn debt_dtos_of(debts: Seq<Debt>, cost_id: u64, cost_amount: int) -> Seq<DebtDto>
    decreases debts.len(),
{
    if debts.len() == 0 {
        Seq::empty()
    } else {
        debt_dtos_of(debts.drop_last(), cost_id, cost_amount) + if debts.last().cost_id
            == cost_id {
            seq![debt_dto_of(debts.last(), cost_amount)]
        } else {
            Seq::empty()
        }
    }
}

proof fn lemma_debt_dtos_step(debts: Seq<Debt>, cost_id: u64, cost_amount: int, i: int)
    requires
        0 <= i < debts.len(),
    ensures
        debt_dtos_of(debts.take(i + 1), cost_id, cost_amount) == debt_dtos_of(
            debts.take(i),
            cost_id,
            cost_amount,
        ) + if debts[i].cost_id == cost_id {
            seq![debt_dto_of(debts[i], cost_amount)]
        } else {
            Seq::empty()
        },
{
    assert(debts.take(i + 1).drop_last() =~= debts.take(i));
    assert(debts.take(i + 1).last() == debts[i]);
}

/// Whether `dto` is the joined response shape of cost `c`: the same
/// fields, and one resolved debt row per debt of the cost.
pub open spec fn cost_dto_matches(debts: Seq<Debt>, dto: CostDto, c: Cost) -> bool {
    &&& dto.id == c.id
    &&& dto.account_id == c.account_id
    &&& dto.amount == c.amount
    &&& dto.event_date == c.event_date
    &&& dto.description == c.description
    &&& dto.tags@ == c.tags@
    &&& dto.debtors@ == debt_dtos_of(debts, c.id, c.amount as int)
}

/// The costs of `costs` whose event date lies in `lo ..= hi`.
pub open spec fn costs_in_range(costs: Seq<Cost>, lo: Date, hi: Date) -> Seq<Cost>
    decreases costs.len(),
{
    if costs.len() == 0 {
        Seq::empty()
    } else {
        costs_in_range(costs.drop_last(), lo, hi) + if lo.key() <= costs.last().event_date.key()
            && costs.last().event_date.key() <= hi.key() {
            seq![costs.last()]
        } else {
            Seq::empty()
        }
    }
}

proof fn lemma_costs_in_range_step(costs: Seq<Cost>, lo: Date, hi: Date, i: int)
    requires
        0 <= i < costs.len(),
    ensures
        costs_in_range(costs.take(i + 1), lo, hi) == costs_in_range(costs.take(i), lo, hi) + if lo.key()
            <= costs[i].event_date.key() && costs[i].event_date.key() <= hi.key() {
            seq![costs[i]]
        } else {
            Seq::empty()
        },
{
    assert(costs.take(i + 1).drop_last() =~= costs.take(i));
    assert(costs.take(i + 1).last() == costs[i]);
}

/// The resolved debt rows of cost `cost_id`, for a cost of
/// `cost_amount` cents.
#[verifier::loop_isolation(false)]
fn collect_debtors(reg: &Registry, cost_id: u64, cost_amount: i64) -> (r: Vec<DebtDto>)
    requires
        reg.values_ok(),
        0 <= cost_amount <= MAX_CENTS,
    ensures
        r@ == debt_dtos_of(reg.debts@, cost_id, cost_amount as int),
{
    let mut out: Vec<DebtDto> = Vec::new();
    let mut i: usize = 0;
    while i < reg.debts.len()
        invariant
            0 <= i <= reg.debts@.len(),
            out@ == debt_dtos_of(reg.debts@.take(i as int), cost_id, cost_amount as int),
        decreases reg.debts@.len() - i,
    {
        proof {
            lemma_debt_dtos_step(reg.debts@, cost_id, cost_amount as int, i as int);
        }
        let d = reg.debts[i];
        if d.cost_id == cost_id {
            let amount = crate::model::share_amount(cost_amount, &d.share);
            let ghost before = out@;
            out.push(DebtDto { id: d.id, account_id: d.debtor_account_id, amount });
            proof {
                assert(out@ =~= before + seq![
                    debt_dto_of(reg.debts@[i as int], cost_amount as int),
                ]);
            }
        } else {
            proof {
                assert(out@ =~= out@ + Seq::<DebtDto>::empty());
            }
        }
        i = i + 1;
    }
    proof {
        assert(reg.debts@.take(reg.debts@.len() as int) =~= reg.debts@);
    }
    out
}

/// All costs with their resolved debt rows, restricted to an event
/// date range; an absent bound is wide open.
#[verifier::loop_isolation(false)]
pub fn get_all(reg: &Registry, start_date: Option<Date>, end_date: Option<Date>) -> (r: Result<
    Vec<CostDto>,
    AppError,
>)
    requires
        reg.values_ok(),
    ensures
        r is Ok,
        ({
            let lo = match start_date {
                Some(d) => d,
                None => Date { year: 1970, month: 1, day: 1 },
            };
            let hi = match end_date {
                Some(d) => d,
                None => Date { year: 3000, month: 1, day: 1 },
            };
            let sel = costs_in_range(reg.costs@, lo, hi);
            &&& r->Ok_0@.len() == sel.len()
            &&& forall|k: int|
                0 <= k < sel.len() ==> cost_dto_matches(reg.debts@, #[trigger] r->Ok_0@[k], sel[k])
        }),
{
    let lo = match start_date {
        Some(d) => d,
        None => Date { year: 1970, month: 1, day: 1 },
    };
    let hi = match end_date {
        Some(d) => d,
        None => Date { year: 3000, month: 1, day: 1 },
    };
    let mut out: Vec<CostDto> = Vec::new();
    let mut i: usize = 0;
    while i < reg.costs.len()
        invariant
            0 <= i <= reg.costs@.len(),
            out@.len() == costs_in_range(reg.costs@.take(i as int), lo, hi).len(),
            forall|k: int|
                0 <= k < out@.len() ==> cost_dto_matches(
                    reg.debts@,
                    #[trigger] out@[k],
                    costs_in_range(reg.costs@.take(i as int), lo, hi)[k],
                ),
        decreases reg.costs@.len() - i,
    {
        proof {
            lemma_costs_in_range_step(reg.costs@, lo, hi, i as int);
        }
        let c = &reg.costs[i];
        if lo.le(&c.event_date) && c.event_date.le(&hi) {
            let debtors = collect_debtors(reg, c.id, c.amount);
            out.push(
                CostDto {
                    id: c.id,
                    account_id: c.account_id,
                    amount: c.amount,
                    debtors,
                    event_date: c.event_date,
                    description: crate::model::copy_opt_string(&c.description),
                    tags: crate::model::copy_strings(&c.tags),
                },
            );
        }
        i = i + 1;
    }
    proof {
        assert(reg.costs@.take(reg.costs@.len() as int) =~= reg.costs@);
    }
    Ok(out)
}

/// The cost with identifier `cost_id`, or `NotFound`.
pub fn get(reg: &Registry, cost_id: u64) -> (r: Result<Cost, AppError>)
    ensures
        match r {
            Ok(c) => exists|i: int|
                0 <= i < reg.costs@.len() && (#[trigger] reg.costs@[i]).id == cost_id && same_cost(
                    c,
                    reg.costs@[i],
                ),
            Err(e) => e is NotFound && !has_cost_id(reg.costs@, cost_id),
        },
{
    match find_cost(&reg.costs, cost_id) {
        Some(i) => Ok(copy_cost(&reg.costs[i])),
        None => Err(AppError::NotFound),
    }
}

} // verus!
