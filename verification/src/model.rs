//! The ledger's data model.
//!
//! All monetary fields are integer cents.  Identifiers are plain `u64`
//! values handed out by the registry; dates are plain calendar triples.
//! Request and response shapes (`...Dto`) carry the same cent amounts —
//! decimal conversion happens only at the outermost boundary.

use vstd::prelude::*;
use crate::text::strings_unique;

verus! {

/// Largest amount, in cents, a single record may carry.  Together with
/// the machine bound on vector lengths this keeps every net balance the
/// ledger can form well inside `i128`.
pub const MAX_CENTS: i64 = 1_000_000_000_000_000;

/// A calendar date.  The ledger never computes with dates beyond
/// ordering them, so the three fields are kept as plain numbers.
#[derive(Clone, Copy, Debug, PartialEq, Eq, Structural)]
pub struct Date {
    pub year: u16,
    pub month: u8,
    pub day: u8,
}

impl Date {
    /// A single key that orders dates chronologically.
    pub open spec fn key(self) -> int {
        self.year * 10000 + self.month * 100 + self.day
    }

    pub fn le(&self, other: &Date) -> (r: bool)
        ensures
            r == (self.key() <= other.key()),
    {
        let a: u32 = self.year as u32 * 10000 + self.month as u32 * 100 + self.day as u32;
        let b: u32 = other.year as u32 * 10000 + other.month as u32 * 100 + other.day as u32;
        a <= b
    }
}

/// A named party.
#[derive(Clone, Debug)]
pub struct Account {
    pub id: u64,
    pub name: String,
}

/// One debtor's share of a cost: either a percentage of the cost's
/// amount, or a pre-resolved amount in cents.
#[derive(Clone, Copy, Debug, PartialEq, Eq, Structural)]
pub enum Split {
    Percentage(i16),
    Amount(i64),
}

impl Split {
    pub open spec fn valid(self) -> bool {
        match self {
            Split::Percentage(p) => 0 <= p <= 100,
            Split::Amount(a) => 1 <= a <= MAX_CENTS,
        }
    }
}

/// The cents `share` resolves to for a cost of `cost_amount` cents.
/// Percentage shares round down, exactly as stored percentages are
/// resolved when the ledger is read.
pub open spec fn share_cents(cost_amount: int, share: Split) -> int {
    match share {
        Split::Percentage(p) => (cost_amount * p) / 100,
        Split::Amount(a) => a as int,
    }
}

/// Resolves `share` to cents for a cost of `cost_amount` cents.
pub fn share_amount(cost_amount: i64, share: &Split) -> (r: i64)
    requires
        0 <= cost_amount <= MAX_CENTS,
        share.valid(),
    ensures
        r == share_cents(cost_amount as int, *share),
        0 <= r <= MAX_CENTS,
{
    proof {
        lemma_share_cents_bounds(cost_amount as int, *share);
    }
    match share {
        Split::Percentage(p) => ((cost_amount as u64 * (*p as u64)) / 100) as i64,
        Split::Amount(a) => *a,
    }
}

/// A valid share of a valid cost amount resolves to cents between 0 and
/// the cost's own amount (percentages) or `MAX_CENTS` (fixed shares).
pub proof fn lemma_share_cents_bounds(cost_amount: int, share: Split)
    requires
        0 <= cost_amount <= MAX_CENTS,
        share.valid(),
    ensures
        0 <= share_cents(cost_amount, share) <= MAX_CENTS,
{
    match share {
        Split::Percentage(p) => {
            assert(0 <= cost_amount * p <= cost_amount * 100) by (nonlinear_arith)
                requires
                    0 <= cost_amount && 0 <= p <= 100,
            ;
            assert(0 <= (cost_amount * p) / 100 <= cost_amount) by (nonlinear_arith)
                requires
                    0 <= cost_amount * p <= cost_amount * 100,
            ;
        },
        Split::Amount(_) => {},
    }
}

/// One debtor's recorded share of a specific cost.
#[derive(Clone, Copy, Debug, PartialEq, Eq, Structural)]
pub struct Debt {
    pub id: u64,
    pub debtor_account_id: u64,
    pub cost_id: u64,
    pub share: Split,
}

/// A shared expense fronted by one account.
#[derive(Clone, Debug)]
pub struct Cost {
    pub id: u64,
    pub account_id: u64,
    pub amount: i64,
    pub event_date: Date,
    pub description: Option<String>,
    pub tags: Vec<String>,
}

impl Cost {
    pub open spec fn valid(self) -> bool {
        0 <= self.amount <= MAX_CENTS && strings_unique(self.tags@)
    }
}

/// A direct settlement from a payer account to a lender account.
#[derive(Clone, Debug)]
pub struct Payment {
    pub id: u64,
    pub payer_account_id: u64,
    pub lender_account_id: u64,
    pub amount: i64,
    pub event_date: Date,
    pub description: Option<String>,
}

impl Payment {
    pub open spec fn valid(self) -> bool {
        0 <= self.amount <= MAX_CENTS
    }
}

// ------------------------------------------------------------------
// Request shapes.

pub struct CreateAccountDto {
    pub name: String,
}

pub struct CreateDebtorDto {
    pub account_id: u64,
    pub share: Split,
}

pub struct CreateCostDto {
    pub debtors: Vec<CreateDebtorDto>,
    pub amount: i64,
    pub event_date: Date,
    pub description: Option<String>,
    pub tags: Option<Vec<String>>,
}

pub struct CreatePaymentDto {
    pub lender_account_id: u64,
    pub amount: i64,
    pub event_date: Date,
    pub description: Option<String>,
}

pub struct DeletePaymentParams {
    pub account_id: u64,
    pub payment_id: u64,
}

pub struct DeleteCostParams {
    pub account_id: u64,
    pub cost_id: u64,
}

pub struct CostsQuery {
    pub start_date: Option<Date>,
    pub end_date: Option<Date>,
}

// ------------------------------------------------------------------
// Response shapes.

#[derive(Clone, Debug)]
pub struct AccountDto {
    pub id: u64,
    pub name: String,
}

#[derive(Clone, Debug)]
pub struct PaymentDto {
    pub id: u64,
    pub payer_account_id: u64,
    pub lender_account_id: u64,
    pub amount: i64,
    pub event_date: Date,
    pub description: Option<String>,
}

#[derive(Clone, Copy, Debug, PartialEq, Eq, Structural)]
pub struct DebtDto {
    pub id: u64,
    pub account_id: u64,
    pub amount: i64,
}

#[derive(Clone, Debug)]
pub struct CostDto {
    pub id: u64,
    pub account_id: u64,
    pub amount: i64,
    pub debtors: Vec<DebtDto>,
    pub event_date: Date,
    pub description: Option<String>,
    pub tags: Vec<String>,
}

/// One row of the net debt snapshot: what `payer_account` currently
/// owes `lender_account`, in cents.  Positive means the lender owes the
/// payer; the amount is a wide integer because it nets arbitrarily many
/// records.
#[derive(Clone, Debug)]
pub struct CalculatedDebtDto {
    pub payer_account: AccountDto,
    pub lender_account: AccountDto,
    pub amount: i128,
}

// ------------------------------------------------------------------
// Copies and conversions.  The derived `Clone` on types with a `String`
// field says nothing to the verifier, so verified code copies through
// these instead.

/// An exact copy of `a`.
pub fn copy_account(a: &Account) -> (r: Account)
    ensures
        r == *a,
{
    Account { id: a.id, name: a.name.clone() }
}

/// An exact copy of `s` (`None` stays `None`).
pub fn copy_opt_string(s: &Option<String>) -> (r: Option<String>)
    ensures
        r == *s,
{
    match s {
        Some(v) => Some(v.clone()),
        None => None,
    }
}

/// An exact copy of `p`.
pub fn copy_payment(p: &Payment) -> (r: Payment)
    ensures
        r == *p,
{
    Payment {
        id: p.id,
        payer_account_id: p.payer_account_id,
        lender_account_id: p.lender_account_id,
        amount: p.amount,
        event_date: p.event_date,
        description: copy_opt_string(&p.description),
    }
}

/// An exact copy of `v`.
pub fn copy_strings(v: &Vec<String>) -> (r: Vec<String>)
    ensures
        r@ == v@,
{
    let mut r: Vec<String> = Vec::new();
    let mut i: usize = 0;
    while i < v.len()
        invariant
            0 <= i <= v@.len(),
            r@ =~= v@.take(i as int),
        decreases v@.len() - i,
    {
        r.push(v[i].clone());
        i = i + 1;
    }
    proof {
        assert(r@ =~= v@);
    }
    r
}

/// Field-wise agreement of two costs.  (The `tags` vectors agree on
/// their contents; vector values themselves admit no stronger claim.)
pub open spec fn same_cost(a: Cost, b: Cost) -> bool {
    a.id == b.id && a.account_id == b.account_id && a.amount == b.amount && a.event_date
        == b.event_date && a.description == b.description && a.tags@ == b.tags@
}

/// A copy of `c` that agrees with it field by field.
pub fn copy_cost(c: &Cost) -> (r: Cost)
    ensures
        same_cost(r, *c),
{
    Cost {
        id: c.id,
        account_id: c.account_id,
        amount: c.amount,
        event_date: c.event_date,
        description: copy_opt_string(&c.description),
        tags: copy_strings(&c.tags),
    }
}

/// The response shape an account maps to.
pub open spec fn account_dto_of(a: Account) -> AccountDto {
    AccountDto { id: a.id, name: a.name }
}

/// The response shape of `a`.
pub fn account_to_dto(a: &Account) -> (r: AccountDto)
    ensures
        r == account_dto_of(*a),
{
    AccountDto { id: a.id, name: a.name.clone() }
}

/// The response shape of `p`.
pub fn payment_to_dto(p: &Payment) -> (r: PaymentDto)
    ensures
        r == payment_dto_of(*p),
{
    PaymentDto {
        id: p.id,
        payer_account_id: p.payer_account_id,
        lender_account_id: p.lender_account_id,
        amount: p.amount,
        event_date: p.event_date,
        description: copy_opt_string(&p.description),
    }
}

/// The response shape a payment maps to.
pub open spec fn payment_dto_of(p: Payment) -> PaymentDto {
    PaymentDto {
        id: p.id,
        payer_account_id: p.payer_account_id,
        lender_account_id: p.lender_account_id,
        amount: p.amount,
        event_date: p.event_date,
        description: p.description,
    }
}

/// The response shape a debt maps to, for a cost of `cost_amount`
/// cents: percentage shares are resolved to cents here.
pub open spec fn debt_dto_of(d: Debt, cost_amount: int) -> DebtDto {
    DebtDto {
        id: d.id,
        account_id: d.debtor_account_id,
        amount: share_cents(cost_amount, d.share) as i64,
    }
}

} // verus!
