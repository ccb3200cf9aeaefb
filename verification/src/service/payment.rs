//! Payment operations.  A payment is a direct settlement between two
//! accounts; it has no split logic but feeds the same netting engine.

use vstd::prelude::*;
use crate::error::{amount_out_of_range_msg, amount_out_of_range_message, AppError};
use crate::model::{copy_payment, Date, Payment, MAX_CENTS};
use crate::store::{has_account_id, has_payment_id, find_account, find_payment, Registry};
use crate::netting::{lemma_payments_select_step, payments_from, payments_to};

verus! {

/// Records a payment of `amount` cents from the payer to the lender.
pub fn create(
    reg: &mut Registry,
    payer_account_id: u64,
    lender_account_id: u64,
    amount: i64,
    description: Option<String>,
    event_date: Date,
) -> (r: Result<Payment, AppError>)
    requires
        old(reg).wf(),
    ensures
        final(reg).wf(),
        match r {
            Ok(p) => {
                &&& 0 <= amount <= MAX_CENTS
                &&& has_account_id(old(reg).accounts@, payer_account_id)
                &&& has_account_id(old(reg).accounts@, lender_account_id)
                &&& old(reg).next_id < u64::MAX
                &&& p == (Payment {
                    id: old(reg).next_id,
                    payer_account_id,
                    lender_account_id,
                    amount,
                    event_date,
                    description,
                })
                &&& final(reg).payments@ == old(reg).payments@.push(p)
                &&& final(reg).accounts == old(reg).accounts
                &&& final(reg).costs == old(reg).costs
                &&& final(reg).debts == old(reg).debts
                &&& final(reg).next_id == old(reg).next_id + 1
            },
            Err(e) => {
                &&& *final(reg) == *old(reg)
                &&& match e {
                    AppError::Service(m) => !(0 <= amount <= MAX_CENTS) && m@
                        == amount_out_of_range_msg(amount as int),
                    AppError::NotFound => 0 <= amount <= MAX_CENTS && (!has_account_id(
                        old(reg).accounts@,
                        payer_account_id,
                    ) || !has_account_id(old(reg).accounts@, lender_account_id)),
                    AppError::InternalServer(_) => 0 <= amount <= MAX_CENTS && has_account_id(
                        old(reg).accounts@,
                        payer_account_id,
                    ) && has_account_id(old(reg).accounts@, lender_account_id) && old(reg).next_id
                        == u64::MAX,
                    _ => false,
                }
            },
        },
{
    if amount < 0 || amount > MAX_CENTS {
        return Err(AppError::Service(amount_out_of_range_message(amount)));
    }
    if find_account(&reg.accounts, payer_account_id).is_none() || find_account(
        &reg.accounts,
        lender_account_id,
    ).is_none() {
        return Err(AppError::NotFound);
    }
    if reg.next_id == u64::MAX {
        proof {
            reveal_strlit("identifier space exhausted");
        }
        return Err(AppError::InternalServer(String::from_str("identifier space exhausted")));
    }
    let id = reg.next_id;
    let payment = Payment {
        id,
        payer_account_id,
        lender_account_id,
        amount,
        event_date,
        description,
    };
    let result = copy_payment(&payment);
    reg.payments.push(payment);
    reg.next_id = id + 1;
    Ok(result)
}

/// Deletes a payment; `NotFound` when no payment has that identifier.
pub fn delete(reg: &mut Registry, payment_id: u64) -> (r: Result<(), AppError>)
    requires
        old(reg).wf(),
    ensures
        final(reg).wf(),
        match r {
            Ok(()) => {
                &&& exists|i: int|
                    0 <= i < old(reg).payments@.len() && (#[trigger] old(reg).payments@[i]).id
                        == payment_id && final(reg).payments@ == old(reg).payments@.remove(i)
                &&& final(reg).accounts == old(reg).accounts
                &&& final(reg).costs == old(reg).costs
                &&& final(reg).debts == old(reg).debts
                &&& final(reg).next_id == old(reg).next_id
            },
            Err(e) => {
                &&& e is NotFound
                &&& !has_payment_id(old(reg).payments@, payment_id)
                &&& *final(reg) == *old(reg)
            },
        },
{
    match find_payment(&reg.payments, payment_id) {
        None => Err(AppError::NotFound),
        Some(i) => {
            let ghost old_payments = reg.payments@;
            reg.payments.remove(i);
            proof {
                assert forall|a: int, b: int|
                    0 <= a < b < reg.payments@.len() implies (#[trigger] reg.payments@[a]).id != (
                #[trigger] reg.payments@[b]).id by {
                    assert(reg.payments@[a] == if a < i {
                        old_payments[a]
                    } else {
                        old_payments[a + 1]
                    });
                    assert(reg.payments@[b] == if b < i {
                        old_payments[b]
                    } else {
                        old_payments[b + 1]
                    });
                }
                assert forall|k: int|
                    0 <= k < reg.payments@.len() implies has_account_id(
                    reg.accounts@,
                    (#[trigger] reg.payments@[k]).payer_account_id,
                ) && has_account_id(reg.accounts@, reg.payments@[k].lender_account_id) && reg.payments@[k].valid()
                    && reg.payments@[k].id < reg.next_id by {
                    assert(reg.payments@[k] == if k < i {
                        old_payments[k]
                    } else {
                        old_payments[k + 1]
                    });
                }
            }
            Ok(())
        },
    }
}

/// The payment with identifier `payment_id`, or `NotFound`.
pub fn get(reg: &Registry, payment_id: u64) -> (r: Result<Payment, AppError>)
    ensures
        match r {
            Ok(p) => exists|i: int|
                0 <= i < reg.payments@.len() && (#[trigger] reg.payments@[i]).id == payment_id && p
                    == reg.payments@[i],
            Err(e) => e is NotFound && !has_payment_id(reg.payments@, payment_id),
        },
{
    match find_payment(&reg.payments, payment_id) {
        Some(i) => Ok(copy_payment(&reg.payments[i])),
        None => Err(AppError::NotFound),
    }
}

/// All payments made by `payer_account_id`, in creation order.
pub fn get_for_account(reg: &Registry, payer_account_id: u64) -> (r: Result<Vec<Payment>, AppError>)
    ensures
        r is Ok,
        r->Ok_0@ == payments_from(reg.payments@, payer_account_id),
{
    let mut out: Vec<Payment> = Vec::new();
    let mut i: usize = 0;
    while i < reg.payments.len()
        invariant
            0 <= i <= reg.payments@.len(),
            out@ == payments_from(reg.payments@.take(i as int), payer_account_id),
        decreases reg.payments@.len() - i,
    {
        proof {
            lemma_payments_select_step(reg.payments@, payer_account_id, i as int);
        }
        if reg.payments[i].payer_account_id == payer_account_id {
            let ghost before = out@;
            out.push(copy_payment(&reg.payments[i]));
            proof {
                assert(out@ =~= before + seq![reg.payments@[i as int]]);
            }
        } else {
            proof {
                assert(out@ =~= out@ + Seq::<Payment>::empty());
            }
        }
        i = i + 1;
    }
    proof {
        assert(reg.payments@.take(reg.payments@.len() as int) =~= reg.payments@);
    }
    Ok(out)
}

/// All payments received by `account_id` (it is the lender), in
/// creation order.
pub fn get_of_account(reg: &Registry, account_id: u64) -> (r: Result<Vec<Payment>, AppError>)
    ensures
        r is Ok,
        r->Ok_0@ == payments_to(reg.payments@, account_id),
{
    let mut out: Vec<Payment> = Vec::new();
    let mut i: usize = 0;
    while i < reg.payments.len()
        invariant
            0 <= i <= reg.payments@.len(),
            out@ == payments_to(reg.payments@.take(i as int), account_id),
        decreases reg.payments@.len() - i,
    {
        proof {
            lemma_payments_select_step(reg.payments@, account_id, i as int);
        }
        if reg.payments[i].lender_account_id == account_id {
            let ghost before = out@;
            out.push(copy_payment(&reg.payments[i]));
            proof {
                assert(out@ =~= before + seq![reg.payments@[i as int]]);
            }
        } else {
            proof {
                assert(out@ =~= out@ + Seq::<Payment>::empty());
            }
        }
        i = i + 1;
    }
    proof {
        assert(reg.payments@.take(reg.payments@.len() as int) =~= reg.payments@);
    }
    Ok(out)
}

/// All payments, in creation order.
pub fn get_all(reg: &Registry) -> (r: Result<Vec<Payment>, AppError>)
    ensures
        r is Ok,
        r->Ok_0@ == reg.payments@,
{
    let mut out: Vec<Payment> = Vec::new();
    let mut i: usize = 0;
    while i < reg.payments.len()
        invariant
            0 <= i <= reg.payments@.len(),
            out@ =~= reg.payments@.take(i as int),
        decreases reg.payments@.len() - i,
    {
        out.push(copy_payment(&reg.payments[i]));
        i = i + 1;
    }
    proof {
        assert(out@ =~= reg.payments@);
    }
    Ok(out)
}

} // verus!
