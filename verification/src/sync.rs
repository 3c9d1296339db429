//! Decisions of the per-view remote-sync flows: what a create form may
//! send, how a create response changes the in-memory snapshot and the
//! single-flight gate, and how remote summary fields land in local state.
//! The network itself stays outside; these functions map plain values to
//! plain values.

use vstd::prelude::*;
use crate::model::DashboardSummary;
use crate::model::NewTransaction;
use crate::model::Transaction;
use crate::text;

verus! {

/// What a submission attempt decides: the form is already sending, the
/// input is rejected with a user-facing message, or a request body is
/// ready to send.
#[derive(PartialEq, Debug)]
pub enum SubmitDecision {
    Busy,
    Invalid(String),
    Send(NewTransaction),
}

/// Whether any of the four trimmed form fields is empty.
pub open spec fn any_field_empty(
    date: Seq<char>,
    description: Seq<char>,
    category: Seq<char>,
    amount: Seq<char>,
) -> bool {
    text::spec_trim(date).len() == 0 || text::spec_trim(description).len() == 0 || text::spec_trim(
        category,
    ).len() == 0 || text::spec_trim(amount).len() == 0
}

/// Checks the general create form: every trimmed field non-empty and the
/// amount a non-zero number of either sign. At most one create per form
/// may be in flight, so a saving form is busy.
pub fn submit_transaction(
    saving: bool,
    date: &str,
    description: &str,
    category: &str,
    amount_text: &str,
) -> (r: SubmitDecision)
    ensures
        ({
            let parsed = text::parsed_or_zero(text::spec_trim(amount_text@));
            match r {
                SubmitDecision::Busy => saving,
                SubmitDecision::Invalid(m) => !saving && if any_field_empty(
                    date@,
                    description@,
                    category@,
                    amount_text@,
                ) {
                    m@ == "Please complete all fields."@
                } else {
                    parsed == 0 && m@ == "Amount must be a non-zero number."@
                },
                SubmitDecision::Send(p) => {
                    &&& !saving
                    &&& !any_field_empty(date@, description@, category@, amount_text@)
                    &&& parsed != 0
                    &&& p.date@ == text::spec_trim(date@)
                    &&& p.description@ == text::spec_trim(description@)
                    &&& p.category@ == text::spec_trim(category@)
                    &&& p.amount as int == parsed
                },
            }
        }),
{
    if saving {
        return SubmitDecision::Busy;
    }
    let date_val = text::trim_str(date);
    let desc_val = text::trim_str(description);
    let category_val = text::trim_str(category);
    let amount_val = text::trim_str(amount_text);
    if date_val.as_str().is_empty() || desc_val.as_str().is_empty()
        || category_val.as_str().is_empty() || amount_val.as_str().is_empty() {
        return SubmitDecision::Invalid("Please complete all fields.".to_owned());
    }
    let amount = text::parse_i64_or_zero(amount_val.as_str());
    if amount == 0 {
        return SubmitDecision::Invalid("Amount must be a non-zero number.".to_owned());
    }
    SubmitDecision::Send(
        NewTransaction {
            date: date_val,
            description: desc_val,
            category: category_val,
            amount,
        },
    )
}

/// Checks a sign-specific create form: every trimmed field non-empty and
/// the amount strictly positive before sign normalization. An expense form
/// negates the amount it sends; an income form sends it as entered.
pub fn submit_signed_entry(
    saving: bool,
    date: &str,
    description: &str,
    category: &str,
    amount_text: &str,
    expense: bool,
) -> (r: SubmitDecision)
    ensures
        ({
            let parsed = text::parsed_or_zero(text::spec_trim(amount_text@));
            match r {
                SubmitDecision::Busy => saving,
                SubmitDecision::Invalid(m) => !saving && if any_field_empty(
                    date@,
                    description@,
                    category@,
                    amount_text@,
                ) {
                    m@ == "Please complete all fields."@
                } else {
                    parsed <= 0 && m@ == "Amount must be a positive number."@
                },
                SubmitDecision::Send(p) => {
                    &&& !saving
                    &&& !any_field_empty(date@, description@, category@, amount_text@)
                    &&& parsed >= 1
                    &&& p.date@ == text::spec_trim(date@)
                    &&& p.description@ == text::spec_trim(description@)
                    &&& p.category@ == text::spec_trim(category@)
                    &&& p.amount as int == if expense {
                        -parsed
                    } else {
                        parsed
                    }
                },
            }
        }),
{
    if saving {
        return SubmitDecision::Busy;
    }
    let date_val = text::trim_str(date);
    let desc_val = text::trim_str(description);
    let category_val = text::trim_str(category);
    let amount_val = text::trim_str(amount_text);
    if date_val.as_str().is_empty() || desc_val.as_str().is_empty()
        || category_val.as_str().is_empty() || amount_val.as_str().is_empty() {
        return SubmitDecision::Invalid("Please complete all fields.".to_owned());
    }
    let parsed = text::parse_i64_or_zero(amount_val.as_str());
    if parsed <= 0 {
        return SubmitDecision::Invalid("Amount must be a positive number.".to_owned());
    }
    let amount = if expense {
        -parsed
    } else {
        parsed
    };
    SubmitDecision::Send(
        NewTransaction {
            date: date_val,
            description: desc_val,
            category: category_val,
            amount,
        },
    )
}

/// The outcome of a create request, decoded once at the boundary: the
/// created entry as the remote stored it, a rejected or failed request, or
/// a success whose body could not be read back.
#[derive(PartialEq, Debug)]
pub enum CreateResponse {
    Created(Transaction),
    Failed,
    Malformed,
}

/// What the view applies after a create request resolves.
#[derive(PartialEq, Debug)]
pub struct CreateAftermath {
    pub error: Option<String>,
    pub success: Option<String>,
    pub saving: bool,
    pub refresh_summary: bool,
    pub clear_form: bool,
}

/// Applies a create response: a created entry is prepended to the
/// in-memory list (the remote assigned its id), the form clears, and the
/// summary is refetched; any failure leaves the list untouched, reports a
/// user-facing message, and releases the single-flight gate either way.
pub fn apply_create_response(list: &mut Vec<Transaction>, resp: CreateResponse) -> (r:
    CreateAftermath)
    ensures
        !r.saving,
        match resp {
            CreateResponse::Created(t) => {
                &&& final(list)@ == seq![t] + old(list)@
                &&& r.error is None
                &&& r.success matches Some(m) && m@ == "Transaction saved."@
                &&& r.refresh_summary
                &&& r.clear_form
            },
            CreateResponse::Failed => {
                &&& final(list)@ == old(list)@
                &&& r.error matches Some(m) && m@ == "Could not save the transaction."@
                &&& r.success is None
                &&& !r.refresh_summary
                &&& !r.clear_form
            },
            CreateResponse::Malformed => {
                &&& final(list)@ == old(list)@
                &&& r.error matches Some(m) && m@ == "Could not read the saved transaction."@
                &&& r.success is None
                &&& !r.refresh_summary
                &&& !r.clear_form
            },
        },
{
    match resp {
        CreateResponse::Created(t) => {
            list.insert(0, t);
            proof {
                assert(list@ =~= seq![list@[0]] + old(list)@);
            }
            CreateAftermath {
                error: None,
                success: Some("Transaction saved.".to_owned()),
                saving: false,
                refresh_summary: true,
                clear_form: true,
            }
        },
        CreateResponse::Failed => CreateAftermath {
            error: Some("Could not save the transaction.".to_owned()),
            success: None,
            saving: false,
            refresh_summary: false,
            clear_form: false,
        },
        CreateResponse::Malformed => CreateAftermath {
            error: Some("Could not read the saved transaction.".to_owned()),
            success: None,
            saving: false,
            refresh_summary: false,
            clear_form: false,
        },
    }
}

/// Prepends a freshly created entry to the in-memory snapshot.
pub fn prepend_transaction(list: &mut Vec<Transaction>, created: Transaction)
    ensures
        final(list)@ == seq![created] + old(list)@,
{
    list.insert(0, created);
    proof {
        assert(list@ =~= seq![list@[0]] + old(list)@);
    }
}

/// The first `n` entries of the snapshot, in order.
pub fn take_recent(txs: &Vec<Transaction>, n: usize) -> (r: Vec<Transaction>)
    ensures
        r@ == txs@.take(
            if n as int <= txs@.len() {
                n as int
            } else {
                txs@.len() as int
            },
        ),
{
    let count = if n <= txs.len() {
        n
    } else {
        txs.len()
    };
    let mut r: Vec<Transaction> = Vec::new();
    let mut j: usize = 0;
    while j < count
        invariant
            j <= count,
            count <= txs@.len(),
            r@ == txs@.take(count as int).take(j as int),
        decreases count - j,
    {
        r.push(txs[j].clone());
        proof {
            assert(r@ =~= txs@.take(count as int).take(j as int + 1));
        }
        j += 1;
    }
    proof {
        assert(txs@.take(count as int).take(count as int) =~= txs@.take(count as int));
    }
    r
}

/// Overlays the decoded summary fields onto the current state: a field the
/// response carried replaces the local value, a missing one leaves the
/// prior value standing (a read failure degrades to stale data, never to
/// an error).
pub fn merge_summary(
    current: DashboardSummary,
    total_income: Option<i64>,
    total_expenses: Option<i64>,
    balance: Option<i64>,
) -> (r: DashboardSummary)
    ensures
        r.total_income == if total_income is Some {
            total_income->0
        } else {
            current.total_income
        },
        r.total_expenses == if total_expenses is Some {
            total_expenses->0
        } else {
            current.total_expenses
        },
        r.balance == if balance is Some {
            balance->0
        } else {
            current.balance
        },
{
    DashboardSummary {
        total_income: match total_income {
            Some(v) => v,
            None => current.total_income,
        },
        total_expenses: match total_expenses {
            Some(v) => v,
            None => current.total_expenses,
        },
        balance: match balance {
            Some(v) => v,
            None => current.balance,
        },
    }
}

} // verus!
