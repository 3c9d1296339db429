//! Pure derivations over the transaction snapshot: per-category expense
//! totals, budget status, and view-level sums. Income contributes nothing
//! to spend; an expense contributes its magnitude.

use vstd::prelude::*;
use vstd::pervasive::VecAdditionalExecFns;
use crate::model::BudgetItem;
use crate::model::Transaction;
use crate::text;

verus! {

/// Expense magnitude contributed by one transaction: `|amount|` when the
/// amount is negative, zero otherwise.
pub open spec fn tx_expense(t: Transaction) -> int {
    if t.amount < 0 {
        -(t.amount as int)
    } else {
        0
    }
}

/// Total expense magnitude of the transactions with the given category.
pub open spec fn spend_of(txs: Seq<Transaction>, cat: Seq<char>) -> int
    decreases txs.len(),
{
    if txs.len() == 0 {
        0
    } else {
        spend_of(txs.drop_last(), cat) + if txs.last().category@ == cat {
            tx_expense(txs.last())
        } else {
            0
        }
    }
}

/// Total expense magnitude over all categories.
pub open spec fn total_expense(txs: Seq<Transaction>) -> int
    decreases txs.len(),
{
    if txs.len() == 0 {
        0
    } else {
        total_expense(txs.drop_last()) + tx_expense(txs.last())
    }
}

/// The distinct expense categories in order of first appearance.
pub open spec fn expense_cats(txs: Seq<Transaction>) -> Seq<Seq<char>>
    decreases txs.len(),
{
    if txs.len() == 0 {
        Seq::empty()
    } else {
        let prefix = expense_cats(txs.drop_last());
        if txs.last().amount < 0 && !prefix.contains(txs.last().category@) {
            prefix.push(txs.last().category@)
        } else {
            prefix
        }
    }
}

/// One category's accumulated expense total.
#[derive(PartialEq, Debug)]
pub struct CategoryTotal {
    pub category: String,
    pub total: i64,
}

/// Per-category expense totals, keyed by exact category text, in order of
/// first appearance in the snapshot.
#[derive(PartialEq, Debug)]
pub struct CategorySpend {
    pub entries: Vec<CategoryTotal>,
}

impl Clone for CategoryTotal {
    fn clone(&self) -> (r: Self)
        ensures
            r == *self,
    {
        CategoryTotal { category: self.category.clone(), total: self.total }
    }
}

impl Clone for CategorySpend {
    fn clone(&self) -> (r: Self)
        ensures
            r.entries@ == self.entries@,
    {
        let mut entries: Vec<CategoryTotal> = Vec::new();
        let mut i: usize = 0;
        while i < self.entries.len()
            invariant
                i <= self.entries@.len(),
                entries@ == self.entries@.take(i as int),
            decreases self.entries@.len() - i,
        {
            entries.push(self.entries[i].clone());
            proof {
                assert(entries@ =~= self.entries@.take(i as int + 1));
            }
            i += 1;
        }
        proof {
            assert(self.entries@.take(i as int) =~= self.entries@);
        }
        CategorySpend { entries }
    }
}

/// The category texts of the entries, in order.
pub open spec fn cats_of(entries: Seq<CategoryTotal>) -> Seq<Seq<char>> {
    entries.map_values(|e: CategoryTotal| e.category@)
}

/// The total recorded for `cat`, zero when absent.
pub open spec fn lookup(entries: Seq<CategoryTotal>, cat: Seq<char>) -> int
    decreases entries.len(),
{
    if entries.len() == 0 {
        0
    } else if entries[0].category@ == cat {
        entries[0].total as int
    } else {
        lookup(entries.drop_first(), cat)
    }
}

impl CategorySpend {
    /// Categories are pairwise distinct and every total is positive.
    pub open spec fn wf(&self) -> bool {
        &&& forall|i: int, j: int|
            0 <= i < j < self.entries@.len() ==> (#[trigger] self.entries@[i]).category@ != (
            #[trigger] self.entries@[j]).category@
        &&& forall|i: int| 0 <= i < self.entries@.len() ==> (#[trigger] self.entries@[i]).total >= 1
    }

    /// The total spent in `category`, zero when the category has no expenses.
    pub fn get(&self, category: &str) -> (r: i64)
        ensures
            r as int == lookup(self.entries@, category@),
    {
        let mut k: usize = 0;
        proof {
            assert(self.entries@.skip(0) =~= self.entries@);
        }
        while k < self.entries.len()
            invariant
                k <= self.entries@.len(),
                lookup(self.entries@, category@) == lookup(
                    self.entries@.skip(k as int),
                    category@,
                ),
            decreases self.entries@.len() - k,
        {
            if text::str_eq(self.entries[k].category.as_str(), category) {
                return self.entries[k].total;
            }
            proof {
                assert(self.entries@.skip(k as int).drop_first() =~= self.entries@.skip(
                    k as int + 1,
                ));
            }
            k += 1;
        }
        0
    }
}

/// Every per-category total is non-negative: spend sums magnitudes of
/// expense entries only.
pub proof fn lemma_spend_of_nonneg(txs: Seq<Transaction>, cat: Seq<char>)
    ensures
        spend_of(txs, cat) >= 0,
    decreases txs.len(),
{
    if txs.len() > 0 {
        lemma_spend_of_nonneg(txs.drop_last(), cat);
    }
}

/// A category's spend never exceeds the overall expense total.
pub proof fn lemma_spend_of_le_total(txs: Seq<Transaction>, cat: Seq<char>)
    ensures
        0 <= spend_of(txs, cat) <= total_expense(txs),
    decreases txs.len(),
{
    if txs.len() > 0 {
        lemma_spend_of_le_total(txs.drop_last(), cat);
    }
}

proof fn lemma_total_expense_take(txs: Seq<Transaction>, m: int)
    requires
        0 <= m <= txs.len(),
    ensures
        0 <= total_expense(txs.take(m)) <= total_expense(txs),
    decreases txs.len() - m,
{
    lemma_total_expense_nonneg(txs.take(m));
    if m == txs.len() {
        assert(txs.take(m) =~= txs);
        lemma_total_expense_nonneg(txs);
    } else {
        lemma_total_expense_take(txs, m + 1);
        assert(txs.take(m + 1).drop_last() =~= txs.take(m));
        assert(total_expense(txs.take(m + 1)) == total_expense(txs.take(m)) + tx_expense(
            txs[m],
        ));
    }
}

proof fn lemma_total_expense_nonneg(txs: Seq<Transaction>)
    ensures
        total_expense(txs) >= 0,
    decreases txs.len(),
{
    if txs.len() > 0 {
        lemma_total_expense_nonneg(txs.drop_last());
    }
}

proof fn lemma_lookup_at(entries: Seq<CategoryTotal>, idx: int)
    requires
        0 <= idx < entries.len(),
        forall|i: int, j: int|
            0 <= i < j < entries.len() ==> (#[trigger] entries[i]).category@ != (
            #[trigger] entries[j]).category@,
    ensures
        lookup(entries, entries[idx].category@) == entries[idx].total as int,
    decreases entries.len(),
{
    if idx > 0 {
        assert(entries[0].category@ != entries[idx].category@);
        lemma_lookup_at(entries.drop_first(), idx - 1);
    }
}

proof fn lemma_lookup_absent(entries: Seq<CategoryTotal>, cat: Seq<char>)
    requires
        forall|i: int| 0 <= i < entries.len() ==> (#[trigger] entries[i]).category@ != cat,
    ensures
        lookup(entries, cat) == 0,
    decreases entries.len(),
{
    if entries.len() > 0 {
        lemma_lookup_absent(entries.drop_first(), cat);
    }
}

proof fn lemma_spend_absent(txs: Seq<Transaction>, cat: Seq<char>)
    requires
        !expense_cats(txs).contains(cat),
    ensures
        spend_of(txs, cat) == 0,
    decreases txs.len(),
{
    if txs.len() > 0 {
        let prefix = expense_cats(txs.drop_last());
        if txs.last().amount < 0 && !prefix.contains(txs.last().category@) {
            assert(expense_cats(txs) == prefix.push(txs.last().category@));
            assert(!prefix.contains(cat)) by {
                if prefix.contains(cat) {
                    let k = choose|k: int| 0 <= k < prefix.len() && prefix[k] == cat;
                    assert(expense_cats(txs)[k] == cat);
                }
            }
            assert(txs.last().category@ != cat) by {
                assert(expense_cats(txs)[prefix.len() as int] == txs.last().category@);
            }
        }
        lemma_spend_absent(txs.drop_last(), cat);
    }
}

/// The index of the entry whose category matches exactly, if any.
fn find_category(entries: &Vec<CategoryTotal>, category: &str) -> (r: Option<usize>)
    ensures
        match r {
            Some(idx) => idx < entries@.len() && entries@[idx as int].category@ == category@,
            None => forall|i: int|
                0 <= i < entries@.len() ==> (#[trigger] entries@[i]).category@ != category@,
        },
{
    let mut idx: usize = 0;
    while idx < entries.len()
        invariant
            idx <= entries@.len(),
            forall|i: int| 0 <= i < idx ==> (#[trigger] entries@[i]).category@ != category@,
        decreases entries@.len() - idx,
    {
        if text::str_eq(entries[idx].category.as_str(), category) {
            return Some(idx);
        }
        idx += 1;
    }
    None
}

/// Derives the per-category expense totals of a snapshot: each expense
/// transaction adds its magnitude to its category, income adds nothing.
pub fn category_spend(txs: &Vec<Transaction>) -> (r: CategorySpend)
    requires
        total_expense(txs@) <= i64::MAX,
    ensures
        r.wf(),
        cats_of(r.entries@) == expense_cats(txs@),
        forall|c: Seq<char>| #[trigger] lookup(r.entries@, c) == spend_of(txs@, c),
{
    let mut entries: Vec<CategoryTotal> = Vec::new();
    let mut j: usize = 0;
    proof {
        assert(txs@.take(0) =~= Seq::<Transaction>::empty());
        assert(cats_of(entries@) =~= expense_cats(txs@.take(0)));
    }
    while j < txs.len()
        invariant
            j <= txs@.len(),
            total_expense(txs@) <= i64::MAX,
            cats_of(entries@) == expense_cats(txs@.take(j as int)),
            forall|i: int|
                0 <= i < entries@.len() ==> (#[trigger] entries@[i]).total as int == spend_of(
                    txs@.take(j as int),
                    entries@[i].category@,
                ),
            forall|i: int| 0 <= i < entries@.len() ==> (#[trigger] entries@[i]).total >= 1,
            forall|i: int, k: int|
                0 <= i < k < entries@.len() ==> (#[trigger] entries@[i]).category@ != (
                #[trigger] entries@[k]).category@,
        decreases txs@.len() - j,
    {
        let ghost pre = txs@.take(j as int);
        let ghost post = txs@.take(j as int + 1);
        proof {
            assert(post.drop_last() =~= pre);
            assert(post.last() == txs@[j as int]);
            lemma_total_expense_take(txs@, j as int + 1);
            lemma_total_expense_nonneg(pre);
        }
        let t = &txs[j];
        if t.amount < 0 {
            proof {
                assert(total_expense(post) == total_expense(pre) + tx_expense(txs@[j as int]));
            }
            let a: i64 = -t.amount;
            let ghost cat = t.category@;
            if let Some(idx) = find_category(&entries, t.category.as_str()) {
                proof {
                    lemma_spend_of_le_total(post, cat);
                    lemma_total_expense_take(txs@, j as int + 1);
                }
                let ghost old_entries = entries@;
                let cat_string = entries[idx].category.clone();
                let new_total = entries[idx].total + a;
                entries.set(idx, CategoryTotal { category: cat_string, total: new_total });
                proof {
                    assert(expense_cats(pre).contains(cat)) by {
                        assert(cats_of(old_entries)[idx as int] == cat);
                    }
                    assert(expense_cats(post) == expense_cats(pre));
                    assert(cats_of(entries@) =~= cats_of(old_entries));
                }
            } else {
                proof {
                    assert(forall|i: int|
                        0 <= i < entries@.len() ==> (#[trigger] entries@[i]).category@ != cat);
                    assert(forall|i: int|
                        0 <= i < cats_of(entries@).len() ==> #[trigger] cats_of(entries@)[i]
                            == entries@[i].category@);
                    assert(!expense_cats(pre).contains(cat));
                    lemma_spend_absent(pre, cat);
                }
                entries.push(CategoryTotal { category: t.category.clone(), total: a });
                proof {
                    assert(cats_of(entries@) =~= expense_cats(post));
                }
            }
        } else {
            proof {
                assert(expense_cats(post) == expense_cats(pre));
                assert(forall|c: Seq<char>| spend_of(post, c) == spend_of(pre, c));
            }
        }
        j += 1;
    }
    proof {
        assert(txs@.take(j as int) =~= txs@);
    }
    let r = CategorySpend { entries };
    proof {
        assert forall|c: Seq<char>| #[trigger] lookup(r.entries@, c) == spend_of(txs@, c) by {
            if exists|i: int| 0 <= i < r.entries@.len() && (#[trigger] r.entries@[i]).category@
                == c {
                let i = choose|i: int|
                    0 <= i < r.entries@.len() && (#[trigger] r.entries@[i]).category@ == c;
                lemma_lookup_at(r.entries@, i);
            } else {
                assert(forall|i: int|
                    0 <= i < r.entries@.len() ==> (#[trigger] r.entries@[i]).category@ != c);
                lemma_lookup_absent(r.entries@, c);
                assert(!expense_cats(txs@).contains(c)) by {
                    if expense_cats(txs@).contains(c) {
                        let k = choose|k: int|
                            0 <= k < expense_cats(txs@).len() && expense_cats(txs@)[k] == c;
                        assert(cats_of(r.entries@)[k] == c);
                        assert(r.entries@[k].category@ == c);
                    }
                }
                lemma_spend_absent(txs@, c);
            }
        }
    }
    r
}

/// `round(spent / limit * 100)` with half rounded away from zero, for a
/// non-negative `spent`; zero when the limit is not positive.
pub open spec fn percent_used(spent: int, limit: int) -> int {
    if limit <= 0 {
        0
    } else {
        (200 * spent + limit) / (2 * limit)
    }
}

/// `percent_used` held to the machine range.
pub open spec fn percent_used_clamped(spent: int, limit: int) -> int {
    if percent_used(spent, limit) > i64::MAX {
        i64::MAX as int
    } else {
        percent_used(spent, limit)
    }
}

proof fn lemma_lookup_nonneg(entries: Seq<CategoryTotal>, cat: Seq<char>)
    requires
        forall|i: int| 0 <= i < entries.len() ==> (#[trigger] entries[i]).total >= 1,
    ensures
        lookup(entries, cat) >= 0,
    decreases entries.len(),
{
    if entries.len() > 0 {
        lemma_lookup_nonneg(entries.drop_first(), cat);
    }
}

/// The rounded percentage of `limit` used by `spent`, saturating at the
/// `i64` maximum.
fn percent_exec(spent: i64, limit: i64) -> (r: i64)
    requires
        spent >= 0,
        limit >= 1,
    ensures
        r as int == percent_used_clamped(spent as int, limit as int),
{
    let num: i128 = 200 * (spent as i128) + (limit as i128);
    let den: i128 = 2 * (limit as i128);
    let q = num / den;
    proof {
        assert(q >= 0) by (nonlinear_arith)
            requires
                num >= 0,
                den > 0,
                q == num / den,
        ;
    }
    if q > i64::MAX as i128 {
        i64::MAX
    } else {
        q as i64
    }
}

/// The status of one budget against the spend mapping.
#[derive(Clone, Copy, PartialEq, Debug)]
pub struct BudgetStatus {
    pub spent: i64,
    pub remaining: i64,
    pub percent_used: i64,
    pub overspent: bool,
}

/// Evaluates one budget: the spent amount is the category's recorded total
/// (exact-text lookup), the remainder is the limit minus that amount, the
/// percentage is rounded half away from zero, and the budget is overspent
/// exactly when spending exceeds the limit.
pub fn budget_status(budget: &BudgetItem, spend: &CategorySpend) -> (r: BudgetStatus)
    requires
        budget.wf(),
        spend.wf(),
    ensures
        r.spent as int == lookup(spend.entries@, budget.category@),
        r.remaining as int == budget.limit - r.spent,
        r.percent_used as int == percent_used_clamped(r.spent as int, budget.limit as int),
        r.overspent == (r.spent > budget.limit),
{
    proof {
        lemma_lookup_nonneg(spend.entries@, budget.category@);
    }
    let spent = spend.get(budget.category.as_str());
    let remaining = budget.limit - spent;
    let percent = percent_exec(spent, budget.limit);
    BudgetStatus { spent, remaining, percent_used: percent, overspent: spent > budget.limit }
}

/// Sum of the budgets' limits.
pub open spec fn sum_limits(budgets: Seq<BudgetItem>) -> int
    decreases budgets.len(),
{
    if budgets.len() == 0 {
        0
    } else {
        sum_limits(budgets.drop_last()) + budgets.last().limit as int
    }
}

/// Sum of the spend recorded against each budget's category.
pub open spec fn sum_spent(budgets: Seq<BudgetItem>, entries: Seq<CategoryTotal>) -> int
    decreases budgets.len(),
{
    if budgets.len() == 0 {
        0
    } else {
        sum_spent(budgets.drop_last(), entries) + lookup(entries, budgets.last().category@)
    }
}

/// How many budgets are overspent.
pub open spec fn overspent_count(budgets: Seq<BudgetItem>, entries: Seq<CategoryTotal>) -> int
    decreases budgets.len(),
{
    if budgets.len() == 0 {
        0
    } else {
        overspent_count(budgets.drop_last(), entries) + if lookup(entries, budgets.last().category@)
            > budgets.last().limit as int {
            1int
        } else {
            0int
        }
    }
}

proof fn lemma_sum_limits_nonneg(budgets: Seq<BudgetItem>)
    requires
        forall|i: int| 0 <= i < budgets.len() ==> (#[trigger] budgets[i]).wf(),
    ensures
        sum_limits(budgets) >= 0,
    decreases budgets.len(),
{
    if budgets.len() > 0 {
        lemma_sum_limits_nonneg(budgets.drop_last());
    }
}

proof fn lemma_sum_spent_nonneg(budgets: Seq<BudgetItem>, entries: Seq<CategoryTotal>)
    requires
        forall|i: int| 0 <= i < entries.len() ==> (#[trigger] entries[i]).total >= 1,
    ensures
        sum_spent(budgets, entries) >= 0,
    decreases budgets.len(),
{
    if budgets.len() > 0 {
        lemma_sum_spent_nonneg(budgets.drop_last(), entries);
        lemma_lookup_nonneg(entries, budgets.last().category@);
    }
}

proof fn lemma_sum_limits_take(budgets: Seq<BudgetItem>, m: int)
    requires
        0 <= m <= budgets.len(),
        forall|i: int| 0 <= i < budgets.len() ==> (#[trigger] budgets[i]).wf(),
    ensures
        0 <= sum_limits(budgets.take(m)) <= sum_limits(budgets),
    decreases budgets.len() - m,
{
    assert(forall|i: int| 0 <= i < budgets.take(m).len() ==> (#[trigger] budgets.take(m)[i]).wf());
    lemma_sum_limits_nonneg(budgets.take(m));
    if m == budgets.len() {
        assert(budgets.take(m) =~= budgets);
    } else {
        lemma_sum_limits_take(budgets, m + 1);
        assert(budgets.take(m + 1).drop_last() =~= budgets.take(m));
        assert(sum_limits(budgets.take(m + 1)) == sum_limits(budgets.take(m))
            + budgets[m].limit as int);
    }
}

proof fn lemma_sum_spent_take(budgets: Seq<BudgetItem>, entries: Seq<CategoryTotal>, m: int)
    requires
        0 <= m <= budgets.len(),
        forall|i: int| 0 <= i < entries.len() ==> (#[trigger] entries[i]).total >= 1,
    ensures
        0 <= sum_spent(budgets.take(m), entries) <= sum_spent(budgets, entries),
    decreases budgets.len() - m,
{
    lemma_sum_spent_nonneg(budgets.take(m), entries);
    if m == budgets.len() {
        assert(budgets.take(m) =~= budgets);
    } else {
        lemma_sum_spent_take(budgets, entries, m + 1);
        assert(budgets.take(m + 1).drop_last() =~= budgets.take(m));
        lemma_lookup_nonneg(entries, budgets[m].category@);
        assert(sum_spent(budgets.take(m + 1), entries) == sum_spent(budgets.take(m), entries)
            + lookup(entries, budgets[m].category@));
    }
}

/// Aggregate budget figures for the dashboard.
#[derive(Clone, Copy, PartialEq, Debug)]
pub struct BudgetOverview {
    pub total_budget: i64,
    pub total_spent: i64,
    pub total_remaining: i64,
    pub overspent_count: usize,
}

/// Sums the budget limits, the spend charged against them, the overall
/// remainder, and how many budgets are over their limit.
pub fn budget_overview(budgets: &Vec<BudgetItem>, spend: &CategorySpend) -> (r: BudgetOverview)
    requires
        crate::model::budgets_wf(budgets@),
        spend.wf(),
        sum_limits(budgets@) <= i64::MAX,
        sum_spent(budgets@, spend.entries@) <= i64::MAX,
    ensures
        r.total_budget as int == sum_limits(budgets@),
        r.total_spent as int == sum_spent(budgets@, spend.entries@),
        r.total_remaining as int == sum_limits(budgets@) - sum_spent(budgets@, spend.entries@),
        r.overspent_count as int == overspent_count(budgets@, spend.entries@),
{
    let mut total_budget: i64 = 0;
    let mut total_spent: i64 = 0;
    let mut over: usize = 0;
    let mut j: usize = 0;
    proof {
        assert(budgets@.take(0) =~= Seq::<crate::model::BudgetItem>::empty());
    }
    while j < budgets.len()
        invariant
            j <= budgets@.len(),
            crate::model::budgets_wf(budgets@),
            spend.wf(),
            sum_limits(budgets@) <= i64::MAX,
            sum_spent(budgets@, spend.entries@) <= i64::MAX,
            total_budget as int == sum_limits(budgets@.take(j as int)),
            total_spent as int == sum_spent(budgets@.take(j as int), spend.entries@),
            over as int == overspent_count(budgets@.take(j as int), spend.entries@),
            over <= j,
        decreases budgets@.len() - j,
    {
        proof {
            assert(budgets@.take(j as int + 1).drop_last() =~= budgets@.take(j as int));
            lemma_sum_limits_take(budgets@, j as int + 1);
            lemma_sum_limits_take(budgets@, j as int);
            lemma_sum_spent_take(budgets@, spend.entries@, j as int + 1);
            lemma_sum_spent_take(budgets@, spend.entries@, j as int);
            lemma_lookup_nonneg(spend.entries@, budgets@[j as int].category@);
        }
        let b = &budgets[j];
        let status = budget_status(b, spend);
        total_budget = total_budget + b.limit;
        total_spent = total_spent + status.spent;
        if status.overspent {
            over = over + 1;
        }
        j += 1;
    }
    proof {
        assert(budgets@.take(j as int) =~= budgets@);
        lemma_sum_limits_nonneg(budgets@);
        lemma_sum_spent_nonneg(budgets@, spend.entries@);
    }
    BudgetOverview {
        total_budget,
        total_spent,
        total_remaining: total_budget - total_spent,
        overspent_count: over,
    }
}

/// Sum of contribution amounts.
pub open spec fn sum_contributions(cs: Seq<crate::model::Contribution>) -> int
    decreases cs.len(),
{
    if cs.len() == 0 {
        0
    } else {
        sum_contributions(cs.drop_last()) + cs.last().amount as int
    }
}

proof fn lemma_sum_contributions_take(cs: Seq<crate::model::Contribution>, m: int)
    requires
        0 <= m <= cs.len(),
        forall|i: int| 0 <= i < cs.len() ==> (#[trigger] cs[i]).wf(),
    ensures
        0 <= sum_contributions(cs.take(m)) <= sum_contributions(cs),
    decreases cs.len() - m,
{
    lemma_sum_contributions_nonneg(cs.take(m));
    if m == cs.len() {
        assert(cs.take(m) =~= cs);
    } else {
        lemma_sum_contributions_take(cs, m + 1);
        assert(cs.take(m + 1).drop_last() =~= cs.take(m));
        assert(sum_contributions(cs.take(m + 1)) == sum_contributions(cs.take(m))
            + cs[m].amount as int);
    }
}

proof fn lemma_sum_contributions_nonneg(cs: Seq<crate::model::Contribution>)
    requires
        forall|i: int| 0 <= i < cs.len() ==> (#[trigger] cs[i]).wf(),
    ensures
        sum_contributions(cs) >= 0,
    decreases cs.len(),
{
    if cs.len() > 0 {
        lemma_sum_contributions_nonneg(cs.drop_last());
    }
}

/// The saved amount capped at the target: the numerator of
/// `min(1, saved / target)` over the denominator `target`.
pub open spec fn progress_capped(saved: int, target: int) -> int {
    if saved >= target {
        target
    } else {
        saved
    }
}

/// `round(min(1, saved / target) * 100)`, half away from zero; zero when
/// the target is not positive.
pub open spec fn goal_percent(saved: int, target: int) -> int {
    if target <= 0 {
        0
    } else {
        (200 * progress_capped(saved, target) + target) / (2 * target)
    }
}

/// Goal progress is a fraction of the target, never less than zero nor
/// more than one: the displayed percentage lies in `0..=100`, is `0` when
/// the target is not positive, and is `100` exactly when the goal is met.
pub proof fn lemma_goal_percent_bounds(saved: int, target: int)
    requires
        saved >= 0,
    ensures
        0 <= goal_percent(saved, target) <= 100,
        target <= 0 ==> goal_percent(saved, target) == 0,
        (target > 0 && saved >= target) ==> goal_percent(saved, target) == 100,
        target > 0 ==> 0 <= progress_capped(saved, target) <= target,
{
    if target > 0 {
        let c = progress_capped(saved, target);
        vstd::arithmetic::div_mod::lemma_fundamental_div_mod_converse(
            201 * target,
            2 * target,
            100,
            target,
        );
        assert(201 * target == 100 * (2 * target) + target) by (nonlinear_arith);
        vstd::arithmetic::div_mod::lemma_div_is_ordered(200 * c + target, 201 * target, 2 * target);
        vstd::arithmetic::div_mod::lemma_div_pos_is_pos(200 * c + target, 2 * target);
        if saved >= target {
            assert(200 * c + target == 201 * target) by (nonlinear_arith)
                requires
                    c == target,
            ;
        }
    }
}

/// The progress of the saving goal: the amount saved so far and the
/// rounded, clamped completion percentage.
#[derive(Clone, Copy, PartialEq, Debug)]
pub struct GoalProgress {
    pub saved: i64,
    pub percent: i64,
}

/// Sums the contributions and derives the completion percentage of
/// `min(1, saved / target)`, zero when no positive target is set.
pub fn goal_progress(goal: &crate::model::SavingGoalState) -> (r: GoalProgress)
    requires
        goal.wf(),
        sum_contributions(goal.contributions@) <= i64::MAX,
    ensures
        r.saved as int == sum_contributions(goal.contributions@),
        r.percent as int == goal_percent(r.saved as int, goal.target_amount as int),
        0 <= r.percent <= 100,
        goal.target_amount <= 0 ==> r.percent == 0,
        (goal.target_amount > 0 && r.saved >= goal.target_amount) ==> r.percent == 100,
{
    let cs = &goal.contributions;
    let mut saved: i64 = 0;
    let mut j: usize = 0;
    proof {
        assert(cs@.take(0) =~= Seq::<crate::model::Contribution>::empty());
    }
    while j < cs.len()
        invariant
            j <= cs@.len(),
            goal.wf(),
            cs@ == goal.contributions@,
            sum_contributions(cs@) <= i64::MAX,
            saved as int == sum_contributions(cs@.take(j as int)),
        decreases cs@.len() - j,
    {
        proof {
            assert(cs@.take(j as int + 1).drop_last() =~= cs@.take(j as int));
            lemma_sum_contributions_take(cs@, j as int + 1);
            lemma_sum_contributions_take(cs@, j as int);
        }
        saved = saved + cs[j].amount;
        j += 1;
    }
    proof {
        assert(cs@.take(j as int) =~= cs@);
        lemma_sum_contributions_nonneg(cs@);
        lemma_goal_percent_bounds(saved as int, goal.target_amount as int);
    }
    let percent: i64 = if goal.target_amount <= 0 {
        0
    } else {
        let c: i128 = if saved >= goal.target_amount {
            goal.target_amount as i128
        } else {
            saved as i128
        };
        let t: i128 = goal.target_amount as i128;
        ((200 * c + t) / (2 * t)) as i64
    };
    GoalProgress { saved, percent }
}

/// The income transactions, in snapshot order.
pub open spec fn incomes_of(txs: Seq<Transaction>) -> Seq<Transaction> {
    txs.filter(|t: Transaction| t.amount > 0)
}

/// The expense transactions, in snapshot order.
pub open spec fn expenses_of(txs: Seq<Transaction>) -> Seq<Transaction> {
    txs.filter(|t: Transaction| t.amount < 0)
}

/// Keeps the income transactions (positive amounts) of a snapshot.
pub fn filter_income(txs: &Vec<Transaction>) -> (r: Vec<Transaction>)
    ensures
        r@ == incomes_of(txs@),
{
    let mut r: Vec<Transaction> = Vec::new();
    let mut j: usize = 0;
    proof {
        reveal(Seq::filter);
        assert(txs@.take(0) =~= Seq::<Transaction>::empty());
    }
    while j < txs.len()
        invariant
            j <= txs@.len(),
            r@ == incomes_of(txs@.take(j as int)),
        decreases txs@.len() - j,
    {
        proof {
            reveal(Seq::filter);
            assert(txs@.take(j as int + 1).drop_last() =~= txs@.take(j as int));
        }
        if txs[j].amount > 0 {
            r.push(txs[j].clone());
        }
        j += 1;
    }
    proof {
        assert(txs@.take(j as int) =~= txs@);
    }
    r
}

/// Keeps the expense transactions (negative amounts) of a snapshot.
pub fn filter_expenses(txs: &Vec<Transaction>) -> (r: Vec<Transaction>)
    ensures
        r@ == expenses_of(txs@),
{
    let mut r: Vec<Transaction> = Vec::new();
    let mut j: usize = 0;
    proof {
        reveal(Seq::filter);
        assert(txs@.take(0) =~= Seq::<Transaction>::empty());
    }
    while j < txs.len()
        invariant
            j <= txs@.len(),
            r@ == expenses_of(txs@.take(j as int)),
        decreases txs@.len() - j,
    {
        proof {
            reveal(Seq::filter);
            assert(txs@.take(j as int + 1).drop_last() =~= txs@.take(j as int));
        }
        if txs[j].amount < 0 {
            r.push(txs[j].clone());
        }
        j += 1;
    }
    proof {
        assert(txs@.take(j as int) =~= txs@);
    }
    r
}

/// Sum of the positive amounts.
pub open spec fn total_income(txs: Seq<Transaction>) -> int
    decreases txs.len(),
{
    if txs.len() == 0 {
        0
    } else {
        total_income(txs.drop_last()) + if txs.last().amount > 0 {
            txs.last().amount as int
        } else {
            0
        }
    }
}

proof fn lemma_total_income_take(txs: Seq<Transaction>, m: int)
    requires
        0 <= m <= txs.len(),
    ensures
        0 <= total_income(txs.take(m)) <= total_income(txs),
    decreases txs.len() - m,
{
    lemma_total_income_nonneg(txs.take(m));
    if m == txs.len() {
        assert(txs.take(m) =~= txs);
    } else {
        lemma_total_income_take(txs, m + 1);
        assert(txs.take(m + 1).drop_last() =~= txs.take(m));
        assert(total_income(txs.take(m + 1)) == total_income(txs.take(m)) + if txs[m].amount > 0 {
            txs[m].amount as int
        } else {
            0
        });
    }
}

proof fn lemma_total_income_nonneg(txs: Seq<Transaction>)
    ensures
        total_income(txs) >= 0,
    decreases txs.len(),
{
    if txs.len() > 0 {
        lemma_total_income_nonneg(txs.drop_last());
    }
}

/// Sums the positive amounts of a snapshot: the income-view balance.
pub fn sum_income(txs: &Vec<Transaction>) -> (r: i64)
    requires
        total_income(txs@) <= i64::MAX,
    ensures
        r as int == total_income(txs@),
{
    let mut r: i64 = 0;
    let mut j: usize = 0;
    proof {
        assert(txs@.take(0) =~= Seq::<Transaction>::empty());
    }
    while j < txs.len()
        invariant
            j <= txs@.len(),
            total_income(txs@) <= i64::MAX,
            r as int == total_income(txs@.take(j as int)),
        decreases txs@.len() - j,
    {
        proof {
            assert(txs@.take(j as int + 1).drop_last() =~= txs@.take(j as int));
            lemma_total_income_take(txs@, j as int + 1);
            lemma_total_income_take(txs@, j as int);
        }
        if txs[j].amount > 0 {
            r = r + txs[j].amount;
        }
        j += 1;
    }
    proof {
        assert(txs@.take(j as int) =~= txs@);
    }
    r
}

/// Sums the expense magnitudes of a snapshot: the expense-view total.
pub fn sum_expense_magnitude(txs: &Vec<Transaction>) -> (r: i64)
    requires
        total_expense(txs@) <= i64::MAX,
    ensures
        r as int == total_expense(txs@),
{
    let mut r: i64 = 0;
    let mut j: usize = 0;
    proof {
        assert(txs@.take(0) =~= Seq::<Transaction>::empty());
    }
    while j < txs.len()
        invariant
            j <= txs@.len(),
            total_expense(txs@) <= i64::MAX,
            r as int == total_expense(txs@.take(j as int)),
        decreases txs@.len() - j,
    {
        proof {
            assert(txs@.take(j as int + 1).drop_last() =~= txs@.take(j as int));
            lemma_total_expense_take(txs@, j as int + 1);
            lemma_total_expense_take(txs@, j as int);
            assert(total_expense(txs@.take(j as int + 1)) == total_expense(txs@.take(j as int))
                + tx_expense(txs@[j as int]));
        }
        if txs[j].amount < 0 {
            r = r + (-txs[j].amount);
        }
        j += 1;
    }
    proof {
        assert(txs@.take(j as int) =~= txs@);
    }
    r
}

/// Stable descending insertion: `e` goes after every element whose total
/// is at least as large.
pub open spec fn insert_desc(sorted: Seq<CategoryTotal>, e: CategoryTotal) -> Seq<CategoryTotal>
    decreases sorted.len(),
{
    if sorted.len() == 0 {
        seq![e]
    } else if sorted[0].total >= e.total {
        seq![sorted[0]] + insert_desc(sorted.drop_first(), e)
    } else {
        seq![e] + sorted
    }
}

/// Stable descending sort by total: equal totals keep their original
/// relative order.
pub open spec fn sort_desc(s: Seq<CategoryTotal>) -> Seq<CategoryTotal>
    decreases s.len(),
{
    if s.len() == 0 {
        Seq::empty()
    } else {
        insert_desc(sort_desc(s.drop_last()), s.last())
    }
}

proof fn lemma_insert_desc_at(s: Seq<CategoryTotal>, e: CategoryTotal, k: int)
    requires
        0 <= k <= s.len(),
        forall|i: int| 0 <= i < k ==> (#[trigger] s[i]).total >= e.total,
        k < s.len() ==> s[k].total < e.total,
    ensures
        insert_desc(s, e) == s.take(k) + seq![e] + s.skip(k),
    decreases k,
{
    if k == 0 {
        if s.len() == 0 {
            assert(insert_desc(s, e) =~= s.take(0) + seq![e] + s.skip(0));
        } else {
            assert(insert_desc(s, e) =~= s.take(0) + seq![e] + s.skip(0));
        }
    } else {
        lemma_insert_desc_at(s.drop_first(), e, k - 1);
        assert(insert_desc(s, e) == seq![s[0]] + insert_desc(s.drop_first(), e));
        assert(s.drop_first().take(k - 1) =~= s.take(k).drop_first());
        assert(insert_desc(s, e) =~= s.take(k) + seq![e] + s.skip(k));
    }
}

/// Inserts `e` into a vector kept in stable descending order by total.
fn insert_sorted(sorted: &mut Vec<CategoryTotal>, e: CategoryTotal)
    ensures
        final(sorted)@ == insert_desc(old(sorted)@, e),
{
    let mut k: usize = 0;
    while k < sorted.len() && sorted[k].total >= e.total
        invariant
            k <= sorted@.len(),
            sorted@ == old(sorted)@,
            forall|i: int| 0 <= i < k ==> (#[trigger] sorted@[i]).total >= e.total,
        decreases sorted@.len() - k,
    {
        k += 1;
    }
    proof {
        lemma_insert_desc_at(sorted@, e, k as int);
    }
    sorted.insert(k, e);
    proof {
        assert(final(sorted)@ =~= old(sorted)@.take(k as int) + seq![e] + old(sorted)@.skip(
            k as int,
        ));
    }
}

/// The `n` highest-spending categories: a stable descending sort by total
/// (ties keep first-seen order), truncated to `n`.
pub fn top_categories(spend: &CategorySpend, n: usize) -> (r: Vec<CategoryTotal>)
    ensures
        r@ == sort_desc(spend.entries@).take(
            if n as int <= spend.entries@.len() {
                n as int
            } else {
                spend.entries@.len() as int
            },
        ),
{
    let mut sorted: Vec<CategoryTotal> = Vec::new();
    let mut j: usize = 0;
    proof {
        assert(spend.entries@.take(0) =~= Seq::<CategoryTotal>::empty());
        assert(sorted@ =~= sort_desc(spend.entries@.take(0)));
    }
    while j < spend.entries.len()
        invariant
            j <= spend.entries@.len(),
            sorted@ == sort_desc(spend.entries@.take(j as int)),
            sorted@.len() == j,
        decreases spend.entries@.len() - j,
    {
        proof {
            assert(spend.entries@.take(j as int + 1).drop_last() =~= spend.entries@.take(j as int));
        }
        insert_sorted(&mut sorted, spend.entries[j].clone());
        proof {
            lemma_insert_desc_len(sort_desc(spend.entries@.take(j as int)), spend.entries@[j as int]);
        }
        j += 1;
    }
    proof {
        assert(spend.entries@.take(j as int) =~= spend.entries@);
    }
    sorted.truncate(n);
    sorted
}

proof fn lemma_insert_desc_len(s: Seq<CategoryTotal>, e: CategoryTotal)
    ensures
        insert_desc(s, e).len() == s.len() + 1,
    decreases s.len(),
{
    if s.len() > 0 && s[0].total >= e.total {
        lemma_insert_desc_len(s.drop_first(), e);
    }
}

/// Totals are non-increasing.
pub open spec fn sorted_by_total_desc(s: Seq<CategoryTotal>) -> bool {
    forall|i: int, j: int|
        0 <= i < j < s.len() ==> (#[trigger] s[i]).total >= (#[trigger] s[j]).total
}

proof fn lemma_insert_desc_sorted(sorted: Seq<CategoryTotal>, e: CategoryTotal)
    requires
        sorted_by_total_desc(sorted),
    ensures
        sorted_by_total_desc(insert_desc(sorted, e)),
        forall|k: int|
            0 <= k < insert_desc(sorted, e).len() ==> ((#[trigger] insert_desc(sorted, e)[k]) == e
                || sorted.contains(insert_desc(sorted, e)[k])),
    decreases sorted.len(),
{
    lemma_insert_desc_len(sorted, e);
    if sorted.len() == 0 {
        assert(insert_desc(sorted, e) =~= seq![e]);
    } else if sorted[0].total >= e.total {
        let tail = sorted.drop_first();
        assert(sorted_by_total_desc(tail)) by {
            assert(forall|i: int, j: int|
                0 <= i < j < tail.len() ==> (#[trigger] tail[i]).total >= (#[trigger] tail[j]).total);
        }
        lemma_insert_desc_sorted(tail, e);
        let inner = insert_desc(tail, e);
        let r = insert_desc(sorted, e);
        assert(r == seq![sorted[0]] + inner);
        assert forall|k: int| 1 <= k < r.len() implies sorted[0].total >= (#[trigger] r[k]).total by {
            assert(r[k] == inner[k - 1]);
            if inner[k - 1] == e {
            } else {
                assert(tail.contains(inner[k - 1]));
                let idx = choose|idx: int| 0 <= idx < tail.len() && tail[idx] == inner[k - 1];
                assert(sorted[idx + 1] == tail[idx]);
            }
        }
        assert forall|k: int|
            0 <= k < r.len() implies ((#[trigger] r[k]) == e || sorted.contains(r[k])) by {
            if k == 0 {
                assert(sorted.contains(r[0])) by {
                    assert(sorted[0] == r[0]);
                }
            } else {
                assert(r[k] == inner[k - 1]);
                if inner[k - 1] != e {
                    assert(tail.contains(inner[k - 1]));
                    let idx = choose|idx: int| 0 <= idx < tail.len() && tail[idx] == inner[k - 1];
                    assert(sorted[idx + 1] == tail[idx]);
                }
            }
        }
        assert forall|i: int, j: int|
            0 <= i < j < r.len() implies (#[trigger] r[i]).total >= (#[trigger] r[j]).total by {
            if i > 0 {
                assert(r[i] == inner[i - 1] && r[j] == inner[j - 1]);
            }
        }
    } else {
        let r = insert_desc(sorted, e);
        assert(r == seq![e] + sorted);
        assert forall|i: int, j: int|
            0 <= i < j < r.len() implies (#[trigger] r[i]).total >= (#[trigger] r[j]).total by {
            if i > 0 {
                assert(r[i] == sorted[i - 1] && r[j] == sorted[j - 1]);
            } else {
                assert(r[j] == sorted[j - 1]);
                if j > 1 {
                    assert(sorted[0].total >= sorted[j - 1].total);
                }
            }
        }
        assert forall|k: int|
            0 <= k < r.len() implies ((#[trigger] r[k]) == e || sorted.contains(r[k])) by {
            if k > 0 {
                assert(r[k] == sorted[k - 1]);
            }
        }
    }
}

/// The stable descending sort really orders its output: the result has the
/// input's length and its totals never increase from one entry to the next.
pub proof fn lemma_sort_desc_sorted(s: Seq<CategoryTotal>)
    ensures
        sort_desc(s).len() == s.len(),
        sorted_by_total_desc(sort_desc(s)),
    decreases s.len(),
{
    if s.len() > 0 {
        lemma_sort_desc_sorted(s.drop_last());
        lemma_insert_desc_sorted(sort_desc(s.drop_last()), s.last());
        lemma_insert_desc_len(sort_desc(s.drop_last()), s.last());
    }
}

} // verus!
