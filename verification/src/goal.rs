//! Saving-goal bookkeeping: replacing the goal, clearing it, and adding a
//! contribution. Adding a contribution prepends locally and also yields a
//! companion ledger entry (category `Savings`, negated amount) for the
//! remote side; the two writes share no transaction guarantee.

use vstd::prelude::*;
use crate::model::Contribution;
use crate::model::NewTransaction;
use crate::model::SavingGoalState;
use crate::text;

verus! {

/// The zero-value goal: empty title, zero target, no date, no
/// contributions. Clearing produces it, and loading falls back to it when
/// nothing usable is persisted; "no goal set" and the zero goal are the
/// same state in this engine's encoding.
pub fn clear_goal() -> (r: SavingGoalState)
    ensures
        r.title@.len() == 0,
        r.target_amount == 0,
        r.target_date@.len() == 0,
        r.contributions@.len() == 0,
        r.wf(),
{
    proof {
        reveal_strlit("");
    }
    SavingGoalState {
        title: "".to_owned(),
        target_amount: 0,
        target_date: "".to_owned(),
        contributions: Vec::new(),
    }
}

/// Builds a replacement goal from the form. The previous goal and all of
/// its contributions are discarded by installing the result. `None` when
/// the title or the amount text is empty (the form rejects those); a
/// negative parsed target is brought up to zero so the stored goal keeps
/// its non-negative-target invariant.
pub fn create_goal(title: &str, amount_text: &str, date: &str) -> (r: Option<SavingGoalState>)
    ensures
        r is Some <==> (title@.len() > 0 && amount_text@.len() > 0),
        r is Some ==> {
            let g = r->0;
            let parsed = if text::parse_i64_ok(amount_text@) {
                text::parsed_i64(amount_text@)
            } else {
                0
            };
            &&& g.title@ == title@
            &&& g.target_amount as int == if parsed >= 0 {
                parsed
            } else {
                0
            }
            &&& g.target_date@ == date@
            &&& g.contributions@.len() == 0
            &&& g.wf()
        },
{
    if title.is_empty() || amount_text.is_empty() {
        return None;
    }
    let parsed = text::parse_i64_or_zero(amount_text);
    let target_amount = if parsed >= 0 {
        parsed
    } else {
        0
    };
    Some(
        SavingGoalState {
            title: title.to_owned(),
            target_amount,
            target_date: date.to_owned(),
            contributions: Vec::new(),
        },
    )
}

/// Adds a contribution to the goal. When the amount text parses to a
/// positive number, the entry is prepended to the history (description
/// defaulting to `Contribution`) and the companion ledger entry is
/// returned: category `Savings`, the amount negated, the description
/// defaulting to `Savings`. Otherwise nothing changes and nothing is sent.
pub fn add_contribution(
    goal: &mut SavingGoalState,
    date: &str,
    description: &str,
    amount_text: &str,
) -> (r: Option<NewTransaction>)
    requires
        old(goal).wf(),
    ensures
        final(goal).wf(),
        ({
            let parsed = if text::parse_i64_ok(amount_text@) {
                text::parsed_i64(amount_text@)
            } else {
                0
            };
            if parsed >= 1 {
                &&& r is Some
                &&& final(goal).title == old(goal).title
                &&& final(goal).target_amount == old(goal).target_amount
                &&& final(goal).target_date == old(goal).target_date
                &&& final(goal).contributions@.len() == old(goal).contributions@.len() + 1
                &&& final(goal).contributions@.drop_first() == old(goal).contributions@
                &&& final(goal).contributions@[0].date@ == date@
                &&& final(goal).contributions@[0].description@ == if description@.len() == 0 {
                    "Contribution"@
                } else {
                    description@
                }
                &&& final(goal).contributions@[0].amount as int == parsed
                &&& r->0.date@ == date@
                &&& r->0.description@ == if description@.len() == 0 {
                    "Savings"@
                } else {
                    description@
                }
                &&& r->0.category@ == "Savings"@
                &&& r->0.amount as int == -parsed
            } else {
                r is None && *final(goal) == *old(goal)
            }
        }),
{
    let parsed = text::parse_i64_or_zero(amount_text);
    if parsed <= 0 {
        return None;
    }
    let entry_description = if description.is_empty() {
        "Contribution".to_owned()
    } else {
        description.to_owned()
    };
    let companion_description = if description.is_empty() {
        "Savings".to_owned()
    } else {
        description.to_owned()
    };
    let entry = Contribution {
        date: date.to_owned(),
        description: entry_description,
        amount: parsed,
    };
    goal.contributions.insert(0, entry);
    proof {
        assert(goal.contributions@.drop_first() =~= old(goal).contributions@);
    }
    Some(
        NewTransaction {
            date: date.to_owned(),
            description: companion_description,
            category: "Savings".to_owned(),
            amount: -parsed,
        },
    )
}

} // verus!
