//! The error taxonomy, and the verified builders for the validation
//! messages that name expected versus actual values.

use vstd::prelude::*;
use vstd::string::StringExecFns;
use crate::text::{dec_str, i128_to_string, i64_to_string};

verus! {

/// Every failure the ledger reports.
///
/// `Service` carries validation failures (splits that do not sum up,
/// amounts out of range, deletions that would orphan records);
/// `Controller` carries failures of per-field request checks;
/// `InternalServer` is reserved for faults of a surrounding storage or
/// transport layer; `NotFound` and `Forbidden` speak for themselves.
#[derive(Clone, Debug)]
pub enum AppError {
    Service(String),
    Controller(String),
    InternalServer(String),
    NotFound,
    Forbidden,
}

impl AppError {
    /// The human-readable text of this error.
    pub fn message(&self) -> (r: String)
        ensures
            r@ == self.message_spec(),
    {
        proof {
            reveal_strlit("not found");
            reveal_strlit("no permission");
        }
        match self {
            AppError::Service(m) => m.clone(),
            AppError::Controller(m) => m.clone(),
            AppError::InternalServer(m) => m.clone(),
            AppError::NotFound => String::from_str("not found"),
            AppError::Forbidden => String::from_str("no permission"),
        }
    }

    pub open spec fn message_spec(self) -> Seq<char> {
        match self {
            AppError::Service(m) => m@,
            AppError::Controller(m) => m@,
            AppError::InternalServer(m) => m@,
            AppError::NotFound => "not found"@,
            AppError::Forbidden => "no permission"@,
        }
    }
}

/// Message of the validation error raised when amount-based debtor
/// shares do not sum to the cost's amount.
pub open spec fn amount_sum_msg(expected: int, actual: int) -> Seq<char> {
    "sum of all debtors amount needs to be "@ + dec_str(expected) + " but is "@ + dec_str(actual)
}

pub fn amount_sum_message(expected: i64, actual: i128) -> (r: String)
    ensures
        r@ == amount_sum_msg(expected as int, actual as int),
{
    proof {
        reveal_strlit("sum of all debtors amount needs to be ");
        reveal_strlit(" but is ");
    }
    let mut s = String::from_str("sum of all debtors amount needs to be ");
    let e = i64_to_string(expected);
    s.append(e.as_str());
    s.append(" but is ");
    let a = i128_to_string(actual);
    s.append(a.as_str());
    s
}

/// Message of the validation error raised when percentage-based debtor
/// shares do not sum to 100.
pub open spec fn percentage_sum_msg(actual: int) -> Seq<char> {
    "sum of all debtors percentage needs to be 100 but is "@ + dec_str(actual)
}

pub fn percentage_sum_message(actual: i128) -> (r: String)
    ensures
        r@ == percentage_sum_msg(actual as int),
{
    proof {
        reveal_strlit("sum of all debtors percentage needs to be 100 but is ");
    }
    let mut s = String::from_str("sum of all debtors percentage needs to be 100 but is ");
    let a = i128_to_string(actual);
    s.append(a.as_str());
    s
}

/// Message of the request check that rejects a non-positive or
/// oversized debtor amount.
pub open spec fn bad_debtor_amount_msg(amount: int) -> Seq<char> {
    "given amount "@ + dec_str(amount) + " is non existent or negative which it can not be"@
}

pub fn bad_debtor_amount_message(amount: i64) -> (r: String)
    ensures
        r@ == bad_debtor_amount_msg(amount as int),
{
    proof {
        reveal_strlit("given amount ");
        reveal_strlit(" is non existent or negative which it can not be");
    }
    let mut s = String::from_str("given amount ");
    let a = i64_to_string(amount);
    s.append(a.as_str());
    s.append(" is non existent or negative which it can not be");
    s
}

/// Message of the request check that rejects a debtor percentage
/// outside 0 ..= 100.
pub open spec fn bad_percentage_msg(p: int) -> Seq<char> {
    "given percentage "@ + dec_str(p) + " is not between 0 and 100"@
}

pub fn bad_percentage_message(p: i16) -> (r: String)
    ensures
        r@ == bad_percentage_msg(p as int),
{
    proof {
        reveal_strlit("given percentage ");
        reveal_strlit(" is not between 0 and 100");
    }
    let mut s = String::from_str("given percentage ");
    let a = i64_to_string(p as i64);
    s.append(a.as_str());
    s.append(" is not between 0 and 100");
    s
}

/// Message of the validation error raised when a cost or payment
/// amount is outside 0 ..= `MAX_CENTS`.
pub open spec fn amount_out_of_range_msg(amount: int) -> Seq<char> {
    "given amount "@ + dec_str(amount) + " is out of range"@
}

pub fn amount_out_of_range_message(amount: i64) -> (r: String)
    ensures
        r@ == amount_out_of_range_msg(amount as int),
{
    proof {
        reveal_strlit("given amount ");
        reveal_strlit(" is out of range");
    }
    let mut s = String::from_str("given amount ");
    let a = i64_to_string(amount);
    s.append(a.as_str());
    s.append(" is out of range");
    s
}

/// Message of the validation error raised when percentage and amount
/// shares are mixed in one cost.
pub open spec fn mixed_split_msg() -> Seq<char> {
    "debtors of one cost need to all use percentages or all use amounts"@
}

pub fn mixed_split_message() -> (r: String)
    ensures
        r@ == mixed_split_msg(),
{
    proof {
        reveal_strlit("debtors of one cost need to all use percentages or all use amounts");
    }
    String::from_str("debtors of one cost need to all use percentages or all use amounts")
}

/// Message of the validation error raised when an account that still
/// has costs, debts or payments would be deleted.
pub open spec fn account_referenced_msg() -> Seq<char> {
    "account is still referenced by costs, debts or payments"@
}

pub fn account_referenced_message() -> (r: String)
    ensures
        r@ == account_referenced_msg(),
{
    proof {
        reveal_strlit("account is still referenced by costs, debts or payments");
    }
    String::from_str("account is still referenced by costs, debts or payments")
}

} // verus!
