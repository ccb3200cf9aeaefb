//! Sums behind the netting engine.
//!
//! For one candidate payer account, the net balance toward a
//! counterparty `b` combines four independent signed contributions:
//! payments the payer made to `b`, payments `b` made to the payer,
//! `b`'s shares of costs the payer fronted, and the payer's shares of
//! costs `b` fronted.  The spec functions here define those sums; the
//! executable functions compute them by plain scans, free of overflow
//! because every stored amount is capped at `MAX_CENTS` and share
//! aggregates are capped at `SHARE_SUM_CAP`.

use vstd::prelude::*;
use crate::model::{Payment, MAX_CENTS};

verus! {

/// Cap on the summed magnitude of an aggregated share list.  A table of
/// at most `usize::MAX` records, each at most `MAX_CENTS < 2^50` cents,
/// sums to less than `2^114`, so every net balance stays inside `i128`.
pub const SHARE_SUM_CAP: i128 = 20_769_187_434_139_310_514_121_985_316_880_384;

/// Sum of the amounts of payments in `ps` whose lender is `b`.
pub open spec fn sum_paid_to(ps: Seq<Payment>, b: u64) -> int
    decreases ps.len(),
{
    if ps.len() == 0 {
        0
    } else {
        sum_paid_to(ps.drop_last(), b) + if ps.last().lender_account_id == b {
            ps.last().amount as int
        } else {
            0
        }
    }
}

/// Sum of the amounts of payments in `ps` whose payer is `b`.
pub open spec fn sum_paid_from(ps: Seq<Payment>, b: u64) -> int
    decreases ps.len(),
{
    if ps.len() == 0 {
        0
    } else {
        sum_paid_from(ps.drop_last(), b) + if ps.last().payer_account_id == b {
            ps.last().amount as int
        } else {
            0
        }
    }
}

/// Sum of the values of pairs in `ds` keyed by `b`.
pub open spec fn sum_pairs(ds: Seq<(u64, i128)>, b: u64) -> int
    decreases ds.len(),
{
    if ds.len() == 0 {
        0
    } else {
        sum_pairs(ds.drop_last(), b) + if ds.last().0 == b {
            ds.last().1 as int
        } else {
            0
        }
    }
}

/// Sum of the magnitudes of all values in `ds`.
pub open spec fn pair_abs_sum(ds: Seq<(u64, i128)>) -> int
    decreases ds.len(),
{
    if ds.len() == 0 {
        0
    } else {
        pair_abs_sum(ds.drop_last()) + abs(ds.last().1 as int)
    }
}

pub open spec fn abs(n: int) -> int {
    if n >= 0 {
        n
    } else {
        -n
    }
}

/// Whether some pair in `ds` is keyed by `b`.
pub open spec fn pairs_contain(ds: Seq<(u64, i128)>, b: u64) -> bool {
    exists|i: int| 0 <= i < ds.len() && ds[i].0 == b
}

/// Every payment's amount is validated, between 0 and `MAX_CENTS`.
pub open spec fn payments_bounded(ps: Seq<Payment>) -> bool {
    forall|i: int| 0 <= i < ps.len() ==> (#[trigger] ps[i]).valid()
}

/// The net cents the candidate payer's claim on `b` comes to: payments
/// made to `b` count positive, payments received from `b` negative,
/// `b`'s shares of the payer's costs positive, the payer's shares of
/// `b`'s costs negative.
pub open spec fn net_balance(
    payed: Seq<Payment>,
    given: Seq<Payment>,
    to_pay: Seq<(u64, i128)>,
    being_paid: Seq<(u64, i128)>,
    b: u64,
) -> int {
    sum_paid_to(payed, b) - sum_paid_from(given, b) + sum_pairs(being_paid, b) - sum_pairs(
        to_pay,
        b,
    )
}

/// Whether any of the four contribution lists records account `b`.
pub open spec fn is_counterparty(
    payed: Seq<Payment>,
    given: Seq<Payment>,
    to_pay: Seq<(u64, i128)>,
    being_paid: Seq<(u64, i128)>,
    b: u64,
) -> bool {
    ||| exists|i: int| 0 <= i < payed.len() && payed[i].lender_account_id == b
    ||| exists|i: int| 0 <= i < given.len() && given[i].payer_account_id == b
    ||| pairs_contain(to_pay, b)
    ||| pairs_contain(being_paid, b)
}

proof fn lemma_sum_paid_to_step(ps: Seq<Payment>, b: u64, i: int)
    requires
        0 <= i < ps.len(),
    ensures
        sum_paid_to(ps.take(i + 1), b) == sum_paid_to(ps.take(i), b) + if ps[i].lender_account_id
            == b {
            ps[i].amount as int
        } else {
            0
        },
{
    assert(ps.take(i + 1).drop_last() =~= ps.take(i));
    assert(ps.take(i + 1).last() == ps[i]);
}

proof fn lemma_sum_paid_from_step(ps: Seq<Payment>, b: u64, i: int)
    requires
        0 <= i < ps.len(),
    ensures
        sum_paid_from(ps.take(i + 1), b) == sum_paid_from(ps.take(i), b) + if ps[i].payer_account_id
            == b {
            ps[i].amount as int
        } else {
            0
        },
{
    assert(ps.take(i + 1).drop_last() =~= ps.take(i));
    assert(ps.take(i + 1).last() == ps[i]);
}

proof fn lemma_sum_pairs_step(ds: Seq<(u64, i128)>, b: u64, i: int)
    requires
        0 <= i < ds.len(),
    ensures
        sum_pairs(ds.take(i + 1), b) == sum_pairs(ds.take(i), b) + if ds[i].0 == b {
            ds[i].1 as int
        } else {
            0
        },
        pair_abs_sum(ds.take(i + 1)) == pair_abs_sum(ds.take(i)) + abs(ds[i].1 as int),
{
    assert(ds.take(i + 1).drop_last() =~= ds.take(i));
    assert(ds.take(i + 1).last() == ds[i]);
}

/// The magnitude of a keyed sum never exceeds the sum of magnitudes.
pub proof fn lemma_sum_pairs_abs(ds: Seq<(u64, i128)>, b: u64)
    ensures
        abs(sum_pairs(ds, b)) <= pair_abs_sum(ds),
        pair_abs_sum(ds) >= 0,
    decreases ds.len(),
{
    if ds.len() > 0 {
        lemma_sum_pairs_abs(ds.drop_last(), b);
    }
}

/// The payments in `ps` whose payer is `a`, in order.
pub open spec fn payments_from(ps: Seq<Payment>, a: u64) -> Seq<Payment>
    decreases ps.len(),
{
    if ps.len() == 0 {
        Seq::empty()
    } else {
        payments_from(ps.drop_last(), a) + if ps.last().payer_account_id == a {
            seq![ps.last()]
        } else {
            Seq::empty()
        }
    }
}

/// The payments in `ps` whose lender is `a`, in order.
pub open spec fn payments_to(ps: Seq<Payment>, a: u64) -> Seq<Payment>
    decreases ps.len(),
{
    if ps.len() == 0 {
        Seq::empty()
    } else {
        payments_to(ps.drop_last(), a) + if ps.last().lender_account_id == a {
            seq![ps.last()]
        } else {
            Seq::empty()
        }
    }
}

/// One step of the two selections above.
pub proof fn lemma_payments_select_step(ps: Seq<Payment>, a: u64, i: int)
    requires
        0 <= i < ps.len(),
    ensures
        payments_from(ps.take(i + 1), a) == payments_from(ps.take(i), a) + if ps[i].payer_account_id
            == a {
            seq![ps[i]]
        } else {
            Seq::empty()
        },
        payments_to(ps.take(i + 1), a) == payments_to(ps.take(i), a) + if ps[i].lender_account_id
            == a {
            seq![ps[i]]
        } else {
            Seq::empty()
        },
{
    assert(ps.take(i + 1).drop_last() =~= ps.take(i));
    assert(ps.take(i + 1).last() == ps[i]);
}

/// Membership in the selections: exactly the source payments with the
/// matching payer (or lender).
pub proof fn lemma_payments_select_elems(ps: Seq<Payment>, a: u64)
    ensures
        forall|x: Payment|
            #[trigger] payments_from(ps, a).contains(x) <==> ps.contains(x) && x.payer_account_id
                == a,
        forall|x: Payment|
            #[trigger] payments_to(ps, a).contains(x) <==> ps.contains(x) && x.lender_account_id
                == a,
    decreases ps.len(),
{
    if ps.len() > 0 {
        lemma_payments_select_elems(ps.drop_last(), a);
        assert forall|x: Payment|
            #[trigger] payments_from(ps, a).contains(x) <==> ps.contains(x) && x.payer_account_id
                == a by {
            lemma_select_elems_case_from(ps, a, x);
        }
        assert forall|x: Payment|
            #[trigger] payments_to(ps, a).contains(x) <==> ps.contains(x) && x.lender_account_id
                == a by {
            lemma_select_elems_case_to(ps, a, x);
        }
    } else {
        assert(forall|x: Payment| !ps.contains(x));
    }
}

proof fn lemma_select_elems_case_from(ps: Seq<Payment>, a: u64, x: Payment)
    requires
        ps.len() > 0,
        forall|y: Payment|
            #[trigger] payments_from(ps.drop_last(), a).contains(y) <==> ps.drop_last().contains(y)
                && y.payer_account_id == a,
    ensures
        payments_from(ps, a).contains(x) <==> ps.contains(x) && x.payer_account_id == a,
{
    let sel = payments_from(ps, a);
    let sub = payments_from(ps.drop_last(), a);
    if sel.contains(x) {
        let i = choose|i: int| 0 <= i < sel.len() && sel[i] == x;
        if i < sub.len() {
            assert(sub.contains(x));
            let j = choose|j: int| 0 <= j < ps.drop_last().len() && ps.drop_last()[j] == x;
            assert(ps[j] == x);
        } else {
            assert(x == ps.last());
            assert(ps[ps.len() - 1] == x);
        }
    }
    if ps.contains(x) && x.payer_account_id == a {
        let j = choose|j: int| 0 <= j < ps.len() && ps[j] == x;
        if j < ps.len() - 1 {
            assert(ps.drop_last()[j] == x);
            assert(sub.contains(x));
            let i = choose|i: int| 0 <= i < sub.len() && sub[i] == x;
            assert(sel[i] == x);
        } else {
            assert(sel[sel.len() - 1] == x);
        }
    }
}

proof fn lemma_select_elems_case_to(ps: Seq<Payment>, a: u64, x: Payment)
    requires
        ps.len() > 0,
        forall|y: Payment|
            #[trigger] payments_to(ps.drop_last(), a).contains(y) <==> ps.drop_last().contains(y)
                && y.lender_account_id == a,
    ensures
        payments_to(ps, a).contains(x) <==> ps.contains(x) && x.lender_account_id == a,
{
    let sel = payments_to(ps, a);
    let sub = payments_to(ps.drop_last(), a);
    if sel.contains(x) {
        let i = choose|i: int| 0 <= i < sel.len() && sel[i] == x;
        if i < sub.len() {
            assert(sub.contains(x));
            let j = choose|j: int| 0 <= j < ps.drop_last().len() && ps.drop_last()[j] == x;
            assert(ps[j] == x);
        } else {
            assert(x == ps.last());
            assert(ps[ps.len() - 1] == x);
        }
    }
    if ps.contains(x) && x.lender_account_id == a {
        let j = choose|j: int| 0 <= j < ps.len() && ps[j] == x;
        if j < ps.len() - 1 {
            assert(ps.drop_last()[j] == x);
            assert(sub.contains(x));
            let i = choose|i: int| 0 <= i < sub.len() && sub[i] == x;
            assert(sel[i] == x);
        } else {
            assert(sel[sel.len() - 1] == x);
        }
    }
}

/// In a pair list with distinct keys, the keyed sum is the single
/// matching value, or zero when the key is absent.
pub proof fn lemma_sum_pairs_eval(ds: Seq<(u64, i128)>, b: u64)
    requires
        forall|i: int, j: int| 0 <= i < j < ds.len() ==> (#[trigger] ds[i]).0 != (#[trigger] ds[j]).0,
    ensures
        !pairs_contain(ds, b) ==> sum_pairs(ds, b) == 0,
        forall|i: int| 0 <= i < ds.len() && (#[trigger] ds[i]).0 == b ==> sum_pairs(ds, b) == ds[i].1,
    decreases ds.len(),
{
    if ds.len() > 0 {
        assert(forall|i: int|
            0 <= i < ds.drop_last().len() ==> (#[trigger] ds.drop_last()[i]) == ds[i]);
        lemma_sum_pairs_eval(ds.drop_last(), b);
        if !pairs_contain(ds, b) {
            assert(!pairs_contain(ds.drop_last(), b)) by {
                if pairs_contain(ds.drop_last(), b) {
                    let i = choose|i: int| 0 <= i < ds.drop_last().len() && ds.drop_last()[i].0 == b;
                    assert(ds[i].0 == b);
                }
            }
        }
        assert forall|i: int|
            0 <= i < ds.len() && (#[trigger] ds[i]).0 == b implies sum_pairs(ds, b) == ds[i].1 by {
            if i == ds.len() - 1 {
                assert(!pairs_contain(ds.drop_last(), b)) by {
                    if pairs_contain(ds.drop_last(), b) {
                        let w = choose|w: int|
                            0 <= w < ds.drop_last().len() && ds.drop_last()[w].0 == b;
                        assert(ds[w].0 == b);
                    }
                }
                assert(sum_pairs(ds.drop_last(), b) == 0);
                assert(ds[i] == ds.last());
            } else {
                assert(ds.last().0 != b);
                assert(ds.drop_last()[i] == ds[i]);
                assert(sum_pairs(ds.drop_last(), b) == ds.drop_last()[i].1);
            }
        }
    }
}

/// Scan: total cents paid to `b` by the payments in `ps`.
pub fn scan_paid_to(ps: &Vec<Payment>, b: u64) -> (r: i128)
    requires
        payments_bounded(ps@),
    ensures
        r == sum_paid_to(ps@, b),
        0 <= r <= ps@.len() * MAX_CENTS,
{
    let mut acc: i128 = 0;
    let mut i: usize = 0;
    while i < ps.len()
        invariant
            0 <= i <= ps@.len(),
            payments_bounded(ps@),
            acc == sum_paid_to(ps@.take(i as int), b),
            0 <= acc <= i * MAX_CENTS,
        decreases ps@.len() - i,
    {
        proof {
            lemma_sum_paid_to_step(ps@, b, i as int);
        }
        if ps[i].lender_account_id == b {
            acc = acc + ps[i].amount as i128;
        }
        i = i + 1;
    }
    proof {
        assert(ps@.take(ps@.len() as int) =~= ps@);
    }
    acc
}

/// Scan: total cents paid by `b` among the payments in `ps`.
pub fn scan_paid_from(ps: &Vec<Payment>, b: u64) -> (r: i128)
    requires
        payments_bounded(ps@),
    ensures
        r == sum_paid_from(ps@, b),
        0 <= r <= ps@.len() * MAX_CENTS,
{
    let mut acc: i128 = 0;
    let mut i: usize = 0;
    while i < ps.len()
        invariant
            0 <= i <= ps@.len(),
            payments_bounded(ps@),
            acc == sum_paid_from(ps@.take(i as int), b),
            0 <= acc <= i * MAX_CENTS,
        decreases ps@.len() - i,
    {
        proof {
            lemma_sum_paid_from_step(ps@, b, i as int);
        }
        if ps[i].payer_account_id == b {
            acc = acc + ps[i].amount as i128;
        }
        i = i + 1;
    }
    proof {
        assert(ps@.take(ps@.len() as int) =~= ps@);
    }
    acc
}

/// Scan: total value keyed by `b` among the pairs in `ds`.
pub fn scan_pairs(ds: &Vec<(u64, i128)>, b: u64) -> (r: i128)
    requires
        pair_abs_sum(ds@) <= SHARE_SUM_CAP,
    ensures
        r == sum_pairs(ds@, b),
        abs(r as int) <= pair_abs_sum(ds@),
{
    let mut acc: i128 = 0;
    let mut i: usize = 0;
    proof {
        lemma_sum_pairs_abs(ds@, b);
    }
    while i < ds.len()
        invariant
            0 <= i <= ds@.len(),
            0 <= pair_abs_sum(ds@) <= SHARE_SUM_CAP,
            acc == sum_pairs(ds@.take(i as int), b),
            abs(acc as int) <= pair_abs_sum(ds@.take(i as int)),
            pair_abs_sum(ds@.take(i as int)) <= pair_abs_sum(ds@),
        decreases ds@.len() - i,
    {
        proof {
            lemma_sum_pairs_step(ds@, b, i as int);
            lemma_pair_abs_sum_take_le(ds@, i as int + 1);
            lemma_sum_pairs_abs(ds@.take(i as int + 1), b);
        }
        if ds[i].0 == b {
            acc = acc + ds[i].1;
        }
        i = i + 1;
    }
    proof {
        assert(ds@.take(ds@.len() as int) =~= ds@);
    }
    acc
}

/// A prefix's magnitude sum never exceeds the whole list's.
pub proof fn lemma_pair_abs_sum_take_le(ds: Seq<(u64, i128)>, n: int)
    requires
        0 <= n <= ds.len(),
    ensures
        pair_abs_sum(ds.take(n)) <= pair_abs_sum(ds),
        pair_abs_sum(ds.take(n)) >= 0,
    decreases ds.len(),
{
    lemma_sum_pairs_abs(ds.take(n), 0);
    if n < ds.len() {
        assert(ds.drop_last().take(n) =~= ds.take(n));
        lemma_pair_abs_sum_take_le(ds.drop_last(), n);
        lemma_sum_pairs_abs(ds.drop_last(), 0);
    } else {
        assert(ds.take(n) =~= ds);
    }
}

/// Pushes `k` unless it is already present: the result's key set is the
/// old one plus `k`, still without duplicates.
pub fn push_unique_u64(v: &mut Vec<u64>, k: u64)
    requires
        forall|i: int, j: int| 0 <= i < j < old(v)@.len() ==> old(v)@[i] != old(v)@[j],
    ensures
        forall|i: int, j: int| 0 <= i < j < final(v)@.len() ==> final(v)@[i] != final(v)@[j],
        forall|x: u64| final(v)@.contains(x) <==> old(v)@.contains(x) || x == k,
{
    let mut i: usize = 0;
    while i < v.len()
        invariant
            0 <= i <= v@.len(),
            v@ == old(v)@,
            forall|t: int, u: int| 0 <= t < u < old(v)@.len() ==> old(v)@[t] != old(v)@[u],
            forall|t: int| 0 <= t < i ==> v@[t] != k,
        decreases v@.len() - i,
    {
        if v[i] == k {
            proof {
                assert(old(v)@.contains(k));
                assert(forall|x: u64|
                    old(v)@.contains(x) || x == k ==> old(v)@.contains(x));
            }
            return ;
        }
        i = i + 1;
    }
    v.push(k);
    proof {
        assert(forall|x: u64| old(v)@.contains(x) ==> final(v)@.contains(x)) by {
            assert(forall|t: int|
                0 <= t < old(v)@.len() ==> final(v)@[t] == old(v)@[t]);
        }
        assert(final(v)@[final(v)@.len() - 1] == k);
        assert(final(v)@.contains(k));
        assert(forall|x: u64| final(v)@.contains(x) ==> old(v)@.contains(x) || x == k) by {
            assert(forall|t: int|
                0 <= t < final(v)@.len() - 1 ==> final(v)@[t] == old(v)@[t]);
        }
    }
}

} // verus!
