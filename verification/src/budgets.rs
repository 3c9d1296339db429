//! Locally-owned budget bookkeeping: form validation and the
//! case-insensitive upsert over the whole collection.

use vstd::prelude::*;
use crate::model::BudgetItem;
use crate::model::budgets_wf;
use crate::text;

verus! {

/// Whether some budget in `s` matches `cat` up to ASCII case.
pub open spec fn has_ci_match(s: Seq<BudgetItem>, cat: Seq<char>) -> bool {
    exists|i: int| 0 <= i < s.len() && text::seq_ci_eq((#[trigger] s[i]).category@, cat)
}

/// Checks a budget form: the trimmed category must be non-empty and the
/// trimmed limit text must parse to a positive number. On failure the
/// user-facing message is returned.
pub fn prepare_budget(category_text: &str, limit_text: &str) -> (r: Result<BudgetItem, String>)
    ensures
        ({
            let cat = text::spec_trim(category_text@);
            let lim = text::spec_trim(limit_text@);
            let parsed = if text::parse_i64_ok(lim) {
                text::parsed_i64(lim)
            } else {
                0
            };
            match r {
                Ok(b) => cat.len() > 0 && parsed >= 1 && b.category@ == cat && b.limit as int
                    == parsed && b.wf(),
                Err(m) => (cat.len() == 0 || parsed <= 0) && m@
                    == "Enter a category and a positive limit."@,
            }
        }),
{
    let category = text::trim_str(category_text);
    let limit_trimmed = text::trim_str(limit_text);
    let limit = text::parse_i64_or_zero(limit_trimmed.as_str());
    if category.as_str().is_empty() || limit <= 0 {
        Err("Enter a category and a positive limit.".to_owned())
    } else {
        Ok(BudgetItem { category, limit })
    }
}

/// Replaces the limit of the budget whose category matches `item`'s up to
/// ASCII case, or appends `item` when no budget matches. The matched
/// budget keeps its original category spelling; the collection length
/// grows by one exactly when the category is new.
pub fn upsert_budget(budgets: &mut Vec<BudgetItem>, item: BudgetItem)
    requires
        item.wf(),
        budgets_wf(old(budgets)@),
    ensures
        budgets_wf(final(budgets)@),
        has_ci_match(old(budgets)@, item.category@) ==> {
            &&& final(budgets)@.len() == old(budgets)@.len()
            &&& forall|i: int|
                0 <= i < old(budgets)@.len() && !text::seq_ci_eq(
                    (#[trigger] old(budgets)@[i]).category@,
                    item.category@,
                ) ==> final(budgets)@[i] == old(budgets)@[i]
            &&& forall|i: int|
                0 <= i < old(budgets)@.len() && text::seq_ci_eq(
                    (#[trigger] old(budgets)@[i]).category@,
                    item.category@,
                ) ==> final(budgets)@[i].category == old(budgets)@[i].category
                    && final(budgets)@[i].limit == item.limit
        },
        !has_ci_match(old(budgets)@, item.category@) ==> final(budgets)@ == old(budgets)@.push(
            item,
        ),
{
    let mut idx: usize = 0;
    while idx < budgets.len()
        invariant
            idx <= budgets@.len(),
            budgets@ == old(budgets)@,
            item.wf(),
            budgets_wf(old(budgets)@),
            forall|i: int|
                0 <= i < idx ==> !text::seq_ci_eq(
                    (#[trigger] budgets@[i]).category@,
                    item.category@,
                ),
        decreases budgets@.len() - idx,
    {
        if text::eq_ignore_case(budgets[idx].category.as_str(), item.category.as_str()) {
            let kept = budgets[idx].category.clone();
            budgets.set(idx, BudgetItem { category: kept, limit: item.limit });
            proof {
                assert(has_ci_match(old(budgets)@, item.category@));
                assert forall|i: int|
                    0 <= i < old(budgets)@.len() && text::seq_ci_eq(
                        (#[trigger] old(budgets)@[i]).category@,
                        item.category@,
                    ) implies budgets@[i].category == old(budgets)@[i].category && budgets@[i].limit
                    == item.limit by {
                    if i != idx {
                        assert(!text::seq_ci_eq(old(budgets)@[i].category@, item.category@)) by {
                            if i < idx {
                            } else {
                                assert(!text::seq_ci_eq(
                                    old(budgets)@[idx as int].category@,
                                    old(budgets)@[i].category@,
                                ));
                            }
                        }
                    }
                }
            }
            return;
        }
        idx += 1;
    }
    proof {
        assert(!has_ci_match(old(budgets)@, item.category@));
    }
    budgets.push(item);
}

} // verus!
