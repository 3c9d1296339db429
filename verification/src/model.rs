//! The engine's data model: the remote-owned transaction ledger entry and
//! the three locally-owned configuration entities.

use vstd::prelude::*;
use crate::text;

verus! {

/// A ledger entry. The remote service owns the lifecycle and assigns `id`;
/// a positive `amount` is income, a negative one an expense, in whole
/// currency units.
#[derive(PartialEq, Debug)]
pub struct Transaction {
    pub id: Option<i32>,
    pub date: String,
    pub description: String,
    pub category: String,
    pub amount: i64,
}

/// The body of a ledger-create request; the remote side assigns the id.
#[derive(PartialEq, Debug)]
pub struct NewTransaction {
    pub date: String,
    pub description: String,
    pub category: String,
    pub amount: i64,
}

/// A locally-owned monthly spending cap for one category.
#[derive(PartialEq, Debug)]
pub struct BudgetItem {
    pub category: String,
    pub limit: i64,
}

impl BudgetItem {
    /// A budget always carries a positive limit.
    pub open spec fn wf(&self) -> bool {
        self.limit >= 1
    }
}

/// Budget collections keep at most one entry per category, compared
/// case-insensitively, and every entry is well formed.
pub open spec fn budgets_wf(s: Seq<BudgetItem>) -> bool {
    &&& forall|i: int| 0 <= i < s.len() ==> (#[trigger] s[i]).wf()
    &&& forall|i: int, j: int|
        0 <= i < j < s.len() ==> !text::seq_ci_eq(#[trigger] s[i].category@, #[trigger] s[j].category@)
}

/// One deposit toward the saving goal.
#[derive(PartialEq, Debug)]
pub struct Contribution {
    pub date: String,
    pub description: String,
    pub amount: i64,
}

impl Contribution {
    /// Contributions are strictly positive.
    pub open spec fn wf(&self) -> bool {
        self.amount >= 1
    }
}

/// The locally-owned saving goal and its contribution history, newest
/// contribution first.
#[derive(PartialEq, Debug)]
pub struct SavingGoalState {
    pub title: String,
    pub target_amount: i64,
    pub target_date: String,
    pub contributions: Vec<Contribution>,
}

impl SavingGoalState {
    /// The target is never negative and every contribution is well formed.
    pub open spec fn wf(&self) -> bool {
        &&& self.target_amount >= 0
        &&& forall|i: int|
            0 <= i < self.contributions@.len() ==> (#[trigger] self.contributions@[i]).wf()
    }
}

/// Locally-owned display settings.
#[derive(PartialEq, Debug)]
pub struct AppSettings {
    pub currency_code: String,
    pub currency_symbol: String,
}

/// Aggregate totals precomputed by the remote service and trusted verbatim.
#[derive(Clone, Copy, PartialEq, Debug)]
pub struct DashboardSummary {
    pub total_income: i64,
    pub total_expenses: i64,
    pub balance: i64,
}

impl Clone for Transaction {
    fn clone(&self) -> (r: Self)
        ensures
            r == *self,
    {
        Transaction {
            id: self.id,
            date: self.date.clone(),
            description: self.description.clone(),
            category: self.category.clone(),
            amount: self.amount,
        }
    }
}

impl Clone for NewTransaction {
    fn clone(&self) -> (r: Self)
        ensures
            r == *self,
    {
        NewTransaction {
            date: self.date.clone(),
            description: self.description.clone(),
            category: self.category.clone(),
            amount: self.amount,
        }
    }
}

impl Clone for BudgetItem {
    fn clone(&self) -> (r: Self)
        ensures
            r == *self,
    {
        BudgetItem { category: self.category.clone(), limit: self.limit }
    }
}

impl Clone for Contribution {
    fn clone(&self) -> (r: Self)
        ensures
            r == *self,
    {
        Contribution {
            date: self.date.clone(),
            description: self.description.clone(),
            amount: self.amount,
        }
    }
}

impl Clone for SavingGoalState {
    fn clone(&self) -> (r: Self)
        ensures
            r.title == self.title,
            r.target_amount == self.target_amount,
            r.target_date == self.target_date,
            r.contributions@ == self.contributions@,
    {
        let mut contributions: Vec<Contribution> = Vec::new();
        let mut i: usize = 0;
        while i < self.contributions.len()
            invariant
                i <= self.contributions@.len(),
                contributions@ == self.contributions@.take(i as int),
            decreases self.contributions@.len() - i,
        {
            contributions.push(self.contributions[i].clone());
            proof {
                assert(contributions@ =~= self.contributions@.take(i as int + 1));
            }
            i += 1;
        }
        proof {
            assert(self.contributions@.take(i as int) =~= self.contributions@);
        }
        SavingGoalState {
            title: self.title.clone(),
            target_amount: self.target_amount,
            target_date: self.target_date.clone(),
            contributions,
        }
    }
}

impl Clone for AppSettings {
    fn clone(&self) -> (r: Self)
        ensures
            r == *self,
    {
        AppSettings {
            currency_code: self.currency_code.clone(),
            currency_symbol: self.currency_symbol.clone(),
        }
    }
}

} // verus!
