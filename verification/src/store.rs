//! The record store.
//!
//! Every persistence variant of this system boils down to four tables
//! and a handful of logical queries, so the ledger models storage as an
//! in-memory arena of records with a well-formedness invariant: unique
//! identifiers, referential integrity, validated amounts, and — the
//! invariant the netting engine depends on — every cost's debts fully
//! accounting for its amount.

use vstd::prelude::*;
use crate::model::{Account, Cost, Debt, Payment, Split};

verus! {

/// Whether some account in `accounts` has identifier `id`.
pub open spec fn has_account_id(accounts: Seq<Account>, id: u64) -> bool {
    exists|i: int| 0 <= i < accounts.len() && accounts[i].id == id
}

/// Whether some cost in `costs` has identifier `id`.
pub open spec fn has_cost_id(costs: Seq<Cost>, id: u64) -> bool {
    exists|i: int| 0 <= i < costs.len() && costs[i].id == id
}

/// Whether some payment in `payments` has identifier `id`.
pub open spec fn has_payment_id(payments: Seq<Payment>, id: u64) -> bool {
    exists|i: int| 0 <= i < payments.len() && payments[i].id == id
}

/// Every debt of cost `cost_id` carries an amount-based share.
pub open spec fn debts_all_amount(debts: Seq<Debt>, cost_id: u64) -> bool {
    forall|i: int|
        0 <= i < debts.len() && (#[trigger] debts[i]).cost_id == cost_id ==> debts[i].share
            is Amount
}

/// Every debt of cost `cost_id` carries a percentage-based share.
pub open spec fn debts_all_percentage(debts: Seq<Debt>, cost_id: u64) -> bool {
    forall|i: int|
        0 <= i < debts.len() && (#[trigger] debts[i]).cost_id == cost_id ==> debts[i].share
            is Percentage
}

/// Sum of the amount-based shares recorded for cost `cost_id`.
pub open spec fn sum_split_amounts(debts: Seq<Debt>, cost_id: u64) -> int
    decreases debts.len(),
{
    if debts.len() == 0 {
        0
    } else {
        sum_split_amounts(debts.drop_last(), cost_id) + if debts.last().cost_id == cost_id {
            match debts.last().share {
                Split::Amount(a) => a as int,
                Split::Percentage(_) => 0,
            }
        } else {
            0
        }
    }
}

/// Sum of the percentage shares recorded for cost `cost_id`.
pub open spec fn sum_split_percentages(debts: Seq<Debt>, cost_id: u64) -> int
    decreases debts.len(),
{
    if debts.len() == 0 {
        0
    } else {
        sum_split_percentages(debts.drop_last(), cost_id) + if debts.last().cost_id == cost_id {
            match debts.last().share {
                Split::Percentage(p) => p as int,
                Split::Amount(_) => 0,
            }
        } else {
            0
        }
    }
}

/// The split-sum invariant for one cost: its debts either all carry
/// amounts summing exactly to the cost's amount, or all carry
/// percentages summing exactly to 100.
pub open spec fn cost_split_ok(debts: Seq<Debt>, c: Cost) -> bool {
    (debts_all_amount(debts, c.id) && sum_split_amounts(debts, c.id) == c.amount)
        || (debts_all_percentage(debts, c.id) && sum_split_percentages(debts, c.id) == 100)
}

/// The four record tables plus the id counter that mints fresh,
/// provably unique identifiers.
pub struct Registry {
    pub accounts: Vec<Account>,
    pub costs: Vec<Cost>,
    pub debts: Vec<Debt>,
    pub payments: Vec<Payment>,
    pub next_id: u64,
}

impl Registry {
    /// Identifiers are unique within each table and below `next_id`.
    pub open spec fn ids_ok(self) -> bool {
        &&& forall|i: int, j: int|
            0 <= i < j < self.accounts@.len() ==> (#[trigger] self.accounts@[i]).id != (
            #[trigger] self.accounts@[j]).id
        &&& forall|i: int, j: int|
            0 <= i < j < self.costs@.len() ==> (#[trigger] self.costs@[i]).id != (
            #[trigger] self.costs@[j]).id
        &&& forall|i: int, j: int|
            0 <= i < j < self.debts@.len() ==> (#[trigger] self.debts@[i]).id != (
            #[trigger] self.debts@[j]).id
        &&& forall|i: int, j: int|
            0 <= i < j < self.payments@.len() ==> (#[trigger] self.payments@[i]).id != (
            #[trigger] self.payments@[j]).id
        &&& forall|i: int|
            0 <= i < self.accounts@.len() ==> (#[trigger] self.accounts@[i]).id < self.next_id
        &&& forall|i: int|
            0 <= i < self.costs@.len() ==> (#[trigger] self.costs@[i]).id < self.next_id
        &&& forall|i: int|
            0 <= i < self.debts@.len() ==> (#[trigger] self.debts@[i]).id < self.next_id
        &&& forall|i: int|
            0 <= i < self.payments@.len() ==> (#[trigger] self.payments@[i]).id < self.next_id
    }

    /// Every reference points at an existing record.
    pub open spec fn refs_ok(self) -> bool {
        &&& forall|i: int|
            0 <= i < self.costs@.len() ==> has_account_id(
                self.accounts@,
                (#[trigger] self.costs@[i]).account_id,
            )
        &&& forall|i: int|
            0 <= i < self.debts@.len() ==> has_cost_id(
                self.costs@,
                (#[trigger] self.debts@[i]).cost_id,
            )
        &&& forall|i: int|
            0 <= i < self.debts@.len() ==> has_account_id(
                self.accounts@,
                (#[trigger] self.debts@[i]).debtor_account_id,
            )
        &&& forall|i: int|
            0 <= i < self.payments@.len() ==> has_account_id(
                self.accounts@,
                (#[trigger] self.payments@[i]).payer_account_id,
            )
        &&& forall|i: int|
            0 <= i < self.payments@.len() ==> has_account_id(
                self.accounts@,
                (#[trigger] self.payments@[i]).lender_account_id,
            )
    }

    /// Amounts are in range, tags are deduplicated, shares are valid.
    pub open spec fn values_ok(self) -> bool {
        &&& forall|i: int| 0 <= i < self.costs@.len() ==> (#[trigger] self.costs@[i]).valid()
        &&& forall|i: int| 0 <= i < self.payments@.len() ==> (#[trigger] self.payments@[i]).valid()
        &&& forall|i: int| 0 <= i < self.debts@.len() ==> (#[trigger] self.debts@[i]).share.valid()
    }

    /// The split-sum invariant holds for every cost.
    pub open spec fn splits_ok(self) -> bool {
        forall|i: int|
            0 <= i < self.costs@.len() ==> cost_split_ok(self.debts@, #[trigger] self.costs@[i])
    }

    /// The registry's full well-formedness invariant.  Constructors
    /// establish it; every mutation preserves it.
    pub open spec fn wf(self) -> bool {
        self.ids_ok() && self.refs_ok() && self.values_ok() && self.splits_ok()
    }

    /// A fresh, empty registry.
    pub fn new() -> (r: Registry)
        ensures
            r.wf(),
            r.accounts@.len() == 0,
            r.costs@.len() == 0,
            r.debts@.len() == 0,
            r.payments@.len() == 0,
    {
        Registry {
            accounts: Vec::new(),
            costs: Vec::new(),
            debts: Vec::new(),
            payments: Vec::new(),
            next_id: 0,
        }
    }
}

/// Filtering a sequence extended by one element keeps the filtered
/// prefix and appends the element exactly when it matches.
pub proof fn lemma_filter_push<A>(s: Seq<A>, x: A, pred: spec_fn(A) -> bool)
    ensures
        s.push(x).filter(pred) == if pred(x) {
            s.filter(pred).push(x)
        } else {
            s.filter(pred)
        },
{
    reveal(Seq::filter);
    assert(s.push(x).drop_last() =~= s);
    assert(s.push(x).last() == x);
}

/// Pushing keeps every account id present.
pub proof fn lemma_has_account_id_push(accounts: Seq<Account>, a: Account, id: u64)
    requires
        has_account_id(accounts, id),
    ensures
        has_account_id(accounts.push(a), id),
{
    let i = choose|i: int| 0 <= i < accounts.len() && accounts[i].id == id;
    assert(accounts.push(a)[i].id == id);
}

/// Pushing keeps every cost id present.
pub proof fn lemma_has_cost_id_push(costs: Seq<Cost>, c: Cost, id: u64)
    requires
        has_cost_id(costs, id),
    ensures
        has_cost_id(costs.push(c), id),
{
    let i = choose|i: int| 0 <= i < costs.len() && costs[i].id == id;
    assert(costs.push(c)[i].id == id);
}

/// Removing an account with a different id keeps `id` present.
pub proof fn lemma_has_account_id_remove(accounts: Seq<Account>, at: int, id: u64)
    requires
        0 <= at < accounts.len(),
        has_account_id(accounts, id),
        accounts[at].id != id,
    ensures
        has_account_id(accounts.remove(at), id),
{
    let i = choose|i: int| 0 <= i < accounts.len() && accounts[i].id == id;
    if i < at {
        assert(accounts.remove(at)[i].id == id);
    } else {
        assert(accounts.remove(at)[i - 1].id == id);
    }
}

/// Every element of a filtered sequence comes from the source.
pub proof fn lemma_filter_elems<A>(s: Seq<A>, pred: spec_fn(A) -> bool)
    ensures
        forall|i: int|
            0 <= i < s.filter(pred).len() ==> exists|j: int|
                0 <= j < s.len() && s[j] == #[trigger] s.filter(pred)[i],
    decreases s.len(),
{
    reveal(Seq::filter);
    if s.len() > 0 {
        lemma_filter_elems(s.drop_last(), pred);
        let sub = s.drop_last().filter(pred);
        assert forall|i: int|
            0 <= i < s.filter(pred).len() implies exists|j: int|
            0 <= j < s.len() && s[j] == #[trigger] s.filter(pred)[i] by {
            if i < sub.len() {
                assert(s.filter(pred)[i] == sub[i]);
                let j = choose|j: int| 0 <= j < s.drop_last().len() && s.drop_last()[j] == sub[i];
                assert(s[j] == s.filter(pred)[i]);
            } else {
                assert(s.filter(pred)[i] == s.last());
                assert(s[s.len() - 1] == s.filter(pred)[i]);
            }
        }
    }
}

/// Filtering debts with pairwise distinct identifiers keeps them
/// pairwise distinct.
pub proof fn lemma_filter_debt_ids_unique(s: Seq<Debt>, pred: spec_fn(Debt) -> bool)
    requires
        forall|i: int, j: int| 0 <= i < j < s.len() ==> (#[trigger] s[i]).id != (#[trigger] s[j]).id,
    ensures
        forall|i: int, j: int|
            0 <= i < j < s.filter(pred).len() ==> (#[trigger] s.filter(pred)[i]).id != (
            #[trigger] s.filter(pred)[j]).id,
    decreases s.len(),
{
    reveal(Seq::filter);
    if s.len() > 0 {
        lemma_filter_debt_ids_unique(s.drop_last(), pred);
        lemma_filter_elems(s.drop_last(), pred);
        let sub = s.drop_last().filter(pred);
        assert forall|i: int, j: int|
            0 <= i < j < s.filter(pred).len() implies (#[trigger] s.filter(pred)[i]).id != (
        #[trigger] s.filter(pred)[j]).id by {
            if j < sub.len() {
                assert(s.filter(pred)[i] == sub[i]);
                assert(s.filter(pred)[j] == sub[j]);
            } else {
                assert(s.filter(pred)[j] == s.last());
                assert(s.filter(pred)[i] == sub[i]);
                let w = choose|w: int|
                    0 <= w < s.drop_last().len() && s.drop_last()[w] == sub[i];
                assert(s[w] == sub[i]);
                assert(s[w].id != s[s.len() - 1].id);
            }
        }
    }
}

/// Appending one debt moves both split sums by that debt's
/// contribution, and keeps the kind predicates for other costs.
pub proof fn lemma_split_sums_push(s: Seq<Debt>, d: Debt, cost_id: u64)
    ensures
        sum_split_amounts(s.push(d), cost_id) == sum_split_amounts(s, cost_id) + if d.cost_id
            == cost_id {
            match d.share {
                Split::Amount(a) => a as int,
                Split::Percentage(_) => 0,
            }
        } else {
            0
        },
        sum_split_percentages(s.push(d), cost_id) == sum_split_percentages(s, cost_id)
            + if d.cost_id == cost_id {
            match d.share {
                Split::Percentage(p) => p as int,
                Split::Amount(_) => 0,
            }
        } else {
            0
        },
        debts_all_amount(s.push(d), cost_id) <==> (debts_all_amount(s, cost_id) && (d.cost_id
            == cost_id ==> d.share is Amount)),
        debts_all_percentage(s.push(d), cost_id) <==> (debts_all_percentage(s, cost_id) && (
        d.cost_id == cost_id ==> d.share is Percentage)),
{
    assert(s.push(d).drop_last() =~= s);
    assert(s.push(d).last() == d);
    assert forall|i: int|
        0 <= i < s.len() implies s.push(d)[i] == s[i] by {}
}

/// When no debt in `s` belongs to `cost_id`, both split sums are zero
/// and both kind predicates hold vacuously.
pub proof fn lemma_split_sums_no_match(s: Seq<Debt>, cost_id: u64)
    requires
        forall|i: int| 0 <= i < s.len() ==> (#[trigger] s[i]).cost_id != cost_id,
    ensures
        sum_split_amounts(s, cost_id) == 0,
        sum_split_percentages(s, cost_id) == 0,
        debts_all_amount(s, cost_id),
        debts_all_percentage(s, cost_id),
    decreases s.len(),
{
    if s.len() > 0 {
        assert forall|i: int|
            0 <= i < s.drop_last().len() implies (#[trigger] s.drop_last()[i]).cost_id
            != cost_id by {
            assert(s.drop_last()[i] == s[i]);
        }
        lemma_split_sums_no_match(s.drop_last(), cost_id);
    }
}

/// Dropping all debts of one cost leaves every other cost's split sums
/// and kind predicates unchanged.
pub proof fn lemma_split_sums_filter_other(s: Seq<Debt>, removed: u64, cost_id: u64)
    requires
        removed != cost_id,
    ensures
        sum_split_amounts(s.filter(|d: Debt| d.cost_id != removed), cost_id) == sum_split_amounts(
            s,
            cost_id,
        ),
        sum_split_percentages(s.filter(|d: Debt| d.cost_id != removed), cost_id)
            == sum_split_percentages(s, cost_id),
        debts_all_amount(s.filter(|d: Debt| d.cost_id != removed), cost_id) <==> debts_all_amount(
            s,
            cost_id,
        ),
        debts_all_percentage(s.filter(|d: Debt| d.cost_id != removed), cost_id)
            <==> debts_all_percentage(s, cost_id),
    decreases s.len(),
{
    reveal(Seq::filter);
    let pred = |d: Debt| d.cost_id != removed;
    if s.len() == 0 {
        assert(s.filter(pred) =~= s);
    } else {
        lemma_split_sums_filter_other(s.drop_last(), removed, cost_id);
        if pred(s.last()) {
            assert(s.filter(pred) == s.drop_last().filter(pred).push(s.last()));
            lemma_split_sums_push(s.drop_last().filter(pred), s.last(), cost_id);
            lemma_split_sums_push(s.drop_last(), s.last(), cost_id);
            assert(s.drop_last().push(s.last()) =~= s);
        } else {
            assert(s.filter(pred) == s.drop_last().filter(pred));
            lemma_split_sums_push(s.drop_last(), s.last(), cost_id);
            assert(s.drop_last().push(s.last()) =~= s);
        }
    }
}

/// Removing a cost with a different id keeps `id` present.
pub proof fn lemma_has_cost_id_remove(costs: Seq<Cost>, at: int, id: u64)
    requires
        0 <= at < costs.len(),
        has_cost_id(costs, id),
        costs[at].id != id,
    ensures
        has_cost_id(costs.remove(at), id),
{
    let i = choose|i: int| 0 <= i < costs.len() && costs[i].id == id;
    if i < at {
        assert(costs.remove(at)[i].id == id);
    } else {
        assert(costs.remove(at)[i - 1].id == id);
    }
}

/// Index of the first account with identifier `id`, if any.  Under
/// `ids_ok` it is the only one.
pub fn find_account(accounts: &Vec<Account>, id: u64) -> (r: Option<usize>)
    ensures
        match r {
            Some(i) => 0 <= i < accounts@.len() && accounts@[i as int].id == id && forall|k: int|
                0 <= k < i ==> accounts@[k].id != id,
            None => !has_account_id(accounts@, id),
        },
{
    let mut i: usize = 0;
    while i < accounts.len()
        invariant
            0 <= i <= accounts@.len(),
            forall|k: int| 0 <= k < i ==> accounts@[k].id != id,
        decreases accounts@.len() - i,
    {
        if accounts[i].id == id {
            return Some(i);
        }
        i = i + 1;
    }
    None
}

/// Index of the first cost with identifier `id`, if any.
pub fn find_cost(costs: &Vec<Cost>, id: u64) -> (r: Option<usize>)
    ensures
        match r {
            Some(i) => 0 <= i < costs@.len() && costs@[i as int].id == id && forall|k: int|
                0 <= k < i ==> costs@[k].id != id,
            None => !has_cost_id(costs@, id),
        },
{
    let mut i: usize = 0;
    while i < costs.len()
        invariant
            0 <= i <= costs@.len(),
            forall|k: int| 0 <= k < i ==> costs@[k].id != id,
        decreases costs@.len() - i,
    {
        if costs[i].id == id {
            return Some(i);
        }
        i = i + 1;
    }
    None
}

/// Index of the first payment with identifier `id`, if any.
pub fn find_payment(payments: &Vec<Payment>, id: u64) -> (r: Option<usize>)
    ensures
        match r {
            Some(i) => 0 <= i < payments@.len() && payments@[i as int].id == id && forall|k: int|
                0 <= k < i ==> payments@[k].id != id,
            None => !has_payment_id(payments@, id),
        },
{
    let mut i: usize = 0;
    while i < payments.len()
        invariant
            0 <= i <= payments@.len(),
            forall|k: int| 0 <= k < i ==> payments@[k].id != id,
        decreases payments@.len() - i,
    {
        if payments[i].id == id {
            return Some(i);
        }
        i = i + 1;
    }
    None
}

} // verus!
