//! Account registry operations.

use vstd::prelude::*;
use crate::error::{account_referenced_msg, account_referenced_message, AppError};
use crate::model::{copy_account, Account};
use crate::store::{
    has_account_id, lemma_has_account_id_push, lemma_has_account_id_remove, find_account, Registry,
};
use crate::text::{contains_str, dedup_strings, strings_unique, vec_contains_string};

verus! {

/// The account with identifier `account_id`, or `NotFound`.
pub fn get(reg: &Registry, account_id: u64) -> (r: Result<Account, AppError>)
    ensures
        match r {
            Ok(a) => exists|i: int|
                0 <= i < reg.accounts@.len() && (#[trigger] reg.accounts@[i]).id == account_id && a
                    == reg.accounts@[i],
            Err(e) => e is NotFound && !has_account_id(reg.accounts@, account_id),
        },
{
    match find_account(&reg.accounts, account_id) {
        Some(i) => Ok(copy_account(&reg.accounts[i])),
        None => Err(AppError::NotFound),
    }
}

/// All accounts, in creation order.
pub fn get_all(reg: &Registry) -> (r: Result<Vec<Account>, AppError>)
    ensures
        r is Ok,
        r->Ok_0@ == reg.accounts@,
{
    let mut out: Vec<Account> = Vec::new();
    let mut i: usize = 0;
    while i < reg.accounts.len()
        invariant
            0 <= i <= reg.accounts@.len(),
            out@ =~= reg.accounts@.take(i as int),
        decreases reg.accounts@.len() - i,
    {
        out.push(copy_account(&reg.accounts[i]));
        i = i + 1;
    }
    proof {
        assert(out@ =~= reg.accounts@);
    }
    Ok(out)
}

/// Registers a new account under a fresh identifier.
pub fn create(reg: &mut Registry, account_name: String) -> (r: Result<Account, AppError>)
    requires
        old(reg).wf(),
    ensures
        final(reg).wf(),
        match r {
            Ok(a) => {
                &&& old(reg).next_id < u64::MAX
                &&& a == (Account { id: old(reg).next_id, name: account_name })
                &&& final(reg).accounts@ == old(reg).accounts@.push(
                    Account { id: old(reg).next_id, name: account_name },
                )
                &&& final(reg).costs == old(reg).costs
                &&& final(reg).debts == old(reg).debts
                &&& final(reg).payments == old(reg).payments
                &&& final(reg).next_id == old(reg).next_id + 1
            },
            Err(e) => {
                &&& old(reg).next_id == u64::MAX
                &&& e is InternalServer
                &&& *final(reg) == *old(reg)
            },
        },
{
    if reg.next_id == u64::MAX {
        proof {
            reveal_strlit("identifier space exhausted");
        }
        return Err(AppError::InternalServer(String::from_str("identifier space exhausted")));
    }
    let id = reg.next_id;
    let account = Account { id, name: account_name };
    let result = copy_account(&account);
    let ghost old_accounts = reg.accounts@;
    reg.accounts.push(account);
    reg.next_id = id + 1;
    proof {
        assert forall|i: int|
            0 <= i < reg.costs@.len() implies has_account_id(
            reg.accounts@,
            (#[trigger] reg.costs@[i]).account_id,
        ) by {
            lemma_has_account_id_push(old_accounts, reg.accounts@.last(), reg.costs@[i].account_id);
        }
        assert forall|i: int|
            0 <= i < reg.debts@.len() implies has_account_id(
            reg.accounts@,
            (#[trigger] reg.debts@[i]).debtor_account_id,
        ) by {
            lemma_has_account_id_push(
                old_accounts,
                reg.accounts@.last(),
                reg.debts@[i].debtor_account_id,
            );
        }
        assert forall|i: int|
            0 <= i < reg.payments@.len() implies has_account_id(
            reg.accounts@,
            (#[trigger] reg.payments@[i]).payer_account_id,
        ) && has_account_id(reg.accounts@, reg.payments@[i].lender_account_id) by {
            lemma_has_account_id_push(
                old_accounts,
                reg.accounts@.last(),
                reg.payments@[i].payer_account_id,
            );
            lemma_has_account_id_push(
                old_accounts,
                reg.accounts@.last(),
                reg.payments@[i].lender_account_id,
            );
        }
    }
    Ok(result)
}

/// Whether any cost, debt or payment still refers to `account_id`.
pub open spec fn account_referenced_spec(reg: Registry, account_id: u64) -> bool {
    ||| exists|i: int|
        0 <= i < reg.costs@.len() && (#[trigger] reg.costs@[i]).account_id == account_id
    ||| exists|i: int|
        0 <= i < reg.debts@.len() && (#[trigger] reg.debts@[i]).debtor_account_id == account_id
    ||| exists|i: int|
        0 <= i < reg.payments@.len() && ((#[trigger] reg.payments@[i]).payer_account_id
            == account_id || reg.payments@[i].lender_account_id == account_id)
}

fn account_referenced(reg: &Registry, account_id: u64) -> (r: bool)
    ensures
        r == account_referenced_spec(*reg, account_id),
{
    let mut i: usize = 0;
    while i < reg.costs.len()
        invariant
            0 <= i <= reg.costs@.len(),
            forall|k: int| 0 <= k < i ==> (#[trigger] reg.costs@[k]).account_id != account_id,
        decreases reg.costs@.len() - i,
    {
        if reg.costs[i].account_id == account_id {
            return true;
        }
        i = i + 1;
    }
    let mut i: usize = 0;
    while i < reg.debts.len()
        invariant
            0 <= i <= reg.debts@.len(),
            forall|k: int|
                0 <= k < reg.costs@.len() ==> (#[trigger] reg.costs@[k]).account_id != account_id,
            forall|k: int| 0 <= k < i ==> (#[trigger] reg.debts@[k]).debtor_account_id != account_id,
        decreases reg.debts@.len() - i,
    {
        if reg.debts[i].debtor_account_id == account_id {
            return true;
        }
        i = i + 1;
    }
    let mut i: usize = 0;
    while i < reg.payments.len()
        invariant
            0 <= i <= reg.payments@.len(),
            forall|k: int|
                0 <= k < reg.costs@.len() ==> (#[trigger] reg.costs@[k]).account_id != account_id,
            forall|k: int|
                0 <= k < reg.debts@.len() ==> (#[trigger] reg.debts@[k]).debtor_account_id
                    != account_id,
            forall|k: int|
                0 <= k < i ==> (#[trigger] reg.payments@[k]).payer_account_id != account_id
                    && reg.payments@[k].lender_account_id != account_id,
        decreases reg.payments@.len() - i,
    {
        if reg.payments[i].payer_account_id == account_id || reg.payments[i].lender_account_id
            == account_id {
            return true;
        }
        i = i + 1;
    }
    false
}

/// Deletes an account.  Deletion is rejected while any cost, debt or
/// payment still refers to the account, so records are never orphaned.
pub fn delete(reg: &mut Registry, account_id: u64) -> (r: Result<(), AppError>)
    requires
        old(reg).wf(),
    ensures
        final(reg).wf(),
        match r {
            Ok(()) => {
                &&& has_account_id(old(reg).accounts@, account_id)
                &&& !account_referenced_spec(*old(reg), account_id)
                &&& exists|i: int|
                    0 <= i < old(reg).accounts@.len() && (#[trigger] old(
                        reg,
                    ).accounts@[i]).id == account_id && final(reg).accounts@ == old(
                        reg,
                    ).accounts@.remove(i)
                &&& final(reg).costs == old(reg).costs
                &&& final(reg).debts == old(reg).debts
                &&& final(reg).payments == old(reg).payments
                &&& final(reg).next_id == old(reg).next_id
            },
            Err(e) => {
                &&& *final(reg) == *old(reg)
                &&& match e {
                    AppError::NotFound => !has_account_id(old(reg).accounts@, account_id),
                    AppError::Service(m) => has_account_id(old(reg).accounts@, account_id)
                        && account_referenced_spec(*old(reg), account_id) && m@
                        == account_referenced_msg(),
                    _ => false,
                }
            },
        },
{
    let found = find_account(&reg.accounts, account_id);
    match found {
        None => Err(AppError::NotFound),
        Some(i) => {
            if account_referenced(reg, account_id) {
                return Err(AppError::Service(account_referenced_message()));
            }
            let ghost old_accounts = reg.accounts@;
            reg.accounts.remove(i);
            proof {
                assert forall|a: int, b: int|
                    0 <= a < b < reg.accounts@.len() implies (#[trigger] reg.accounts@[a]).id != (
                #[trigger] reg.accounts@[b]).id by {
                    assert(reg.accounts@[a] == if a < i {
                        old_accounts[a]
                    } else {
                        old_accounts[a + 1]
                    });
                    assert(reg.accounts@[b] == if b < i {
                        old_accounts[b]
                    } else {
                        old_accounts[b + 1]
                    });
                }
                assert forall|k: int|
                    0 <= k < reg.costs@.len() implies has_account_id(
                    reg.accounts@,
                    (#[trigger] reg.costs@[k]).account_id,
                ) by {
                    lemma_has_account_id_remove(old_accounts, i as int, reg.costs@[k].account_id);
                }
                assert forall|k: int|
                    0 <= k < reg.debts@.len() implies has_account_id(
                    reg.accounts@,
                    (#[trigger] reg.debts@[k]).debtor_account_id,
                ) by {
                    lemma_has_account_id_remove(
                        old_accounts,
                        i as int,
                        reg.debts@[k].debtor_account_id,
                    );
                }
                assert forall|k: int|
                    0 <= k < reg.payments@.len() implies has_account_id(
                    reg.accounts@,
                    (#[trigger] reg.payments@[k]).payer_account_id,
                ) && has_account_id(reg.accounts@, reg.payments@[k].lender_account_id) by {
                    lemma_has_account_id_remove(
                        old_accounts,
                        i as int,
                        reg.payments@[k].payer_account_id,
                    );
                    lemma_has_account_id_remove(
                        old_accounts,
                        i as int,
                        reg.payments@[k].lender_account_id,
                    );
                }
            }
            Ok(())
        },
    }
}

/// Whether some cost fronted by `account_id` carries a tag with the
/// characters `s`.
pub open spec fn tag_in_account_costs(reg: Registry, account_id: u64, s: Seq<char>) -> bool {
    exists|i: int, j: int|
        #![trigger reg.costs@[i].tags@[j]]
        0 <= i < reg.costs@.len() && reg.costs@[i].account_id == account_id && 0 <= j
            < reg.costs@[i].tags@.len() && reg.costs@[i].tags@[j]@ == s
}

/// All tags used by the account's costs, each exactly once.
pub fn get_tags(reg: &Registry, account_id: u64) -> (r: Result<Vec<String>, AppError>)
    ensures
        r is Ok,
        strings_unique(r->Ok_0@),
        forall|k: int|
            0 <= k < r->Ok_0@.len() ==> tag_in_account_costs(
                *reg,
                account_id,
                (#[trigger] r->Ok_0@[k])@,
            ),
        forall|s: Seq<char>| tag_in_account_costs(*reg, account_id, s) ==> contains_str(r->Ok_0@, s),
{
    let mut all: Vec<String> = Vec::new();
    let mut i: usize = 0;
    while i < reg.costs.len()
        invariant
            0 <= i <= reg.costs@.len(),
            forall|k: int|
                0 <= k < all@.len() ==> tag_in_account_costs(
                    *reg,
                    account_id,
                    (#[trigger] all@[k])@,
                ),
            forall|ci: int, tj: int|
                #![trigger reg.costs@[ci].tags@[tj]]
                0 <= ci < i && reg.costs@[ci].account_id == account_id && 0 <= tj
                    < reg.costs@[ci].tags@.len() ==> contains_str(all@, reg.costs@[ci].tags@[tj]@),
        decreases reg.costs@.len() - i,
    {
        if reg.costs[i].account_id == account_id {
            let cost = &reg.costs[i];
            let mut j: usize = 0;
            while j < cost.tags.len()
                invariant
                    0 <= j <= cost.tags@.len(),
                    cost == &reg.costs@[i as int],
                    0 <= i < reg.costs@.len(),
                    reg.costs@[i as int].account_id == account_id,
                    forall|k: int|
                        0 <= k < all@.len() ==> tag_in_account_costs(
                            *reg,
                            account_id,
                            (#[trigger] all@[k])@,
                        ),
                    forall|ci: int, tj: int|
                        #![trigger reg.costs@[ci].tags@[tj]]
                        0 <= ci < i && reg.costs@[ci].account_id == account_id && 0
                            <= tj < reg.costs@[ci].tags@.len() ==> contains_str(
                            all@,
                            reg.costs@[ci].tags@[tj]@,
                        ),
                    forall|tj: int|
                        0 <= tj < j ==> contains_str(all@, (#[trigger] cost.tags@[tj])@),
                decreases cost.tags@.len() - j,
            {
                if !vec_contains_string(&all, &cost.tags[j]) {
                    let ghost prev = all@;
                    all.push(cost.tags[j].clone());
                    proof {
                        assert(all@[all@.len() - 1]@ == cost.tags@[j as int]@);
                        assert forall|k: int| 0 <= k < prev.len() implies all@[k]@ == prev[k]@ by {}
                        assert forall|s: Seq<char>| contains_str(prev, s) implies contains_str(
                            all@,
                            s,
                        ) by {
                            let w = choose|w: int| 0 <= w < prev.len() && prev[w]@ == s;
                            assert(all@[w]@ == s);
                        }
                        assert(tag_in_account_costs(*reg, account_id, cost.tags@[j as int]@));
                    }
                }
                j = j + 1;
            }
        }
        i = i + 1;
    }
    let result = dedup_strings(&all);
    proof {
        assert forall|s: Seq<char>|
            tag_in_account_costs(*reg, account_id, s) implies contains_str(result@, s) by {
            let (ci, tj) = choose|ci: int, tj: int|
                #![trigger reg.costs@[ci].tags@[tj]]
                0 <= ci < reg.costs@.len() && reg.costs@[ci].account_id == account_id
                    && 0 <= tj < reg.costs@[ci].tags@.len() && reg.costs@[ci].tags@[tj]@ == s;
            assert(contains_str(all@, s));
            let w = choose|w: int| 0 <= w < all@.len() && all@[w]@ == s;
            assert(contains_str(result@, all@[w]@));
        }
        assert forall|k: int|
            0 <= k < result@.len() implies tag_in_account_costs(
            *reg,
            account_id,
            (#[trigger] result@[k])@,
        ) by {
            assert(contains_str(all@, result@[k]@));
            let w = choose|w: int| 0 <= w < all@.len() && all@[w]@ == result@[k]@;
        }
    }
    Ok(result)
}

} // verus!
