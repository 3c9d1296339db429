use pondobro::aggregate::budget_overview;
use pondobro::aggregate::budget_status;
use pondobro::aggregate::category_spend;
use pondobro::aggregate::filter_expenses;
use pondobro::aggregate::filter_income;
use pondobro::aggregate::goal_progress;
use pondobro::aggregate::sum_expense_magnitude;
use pondobro::aggregate::sum_income;
use pondobro::aggregate::top_categories;
use pondobro::model::BudgetItem;
use pondobro::model::Contribution;
use pondobro::model::SavingGoalState;
use pondobro::model::Transaction;

fn tx(category: &str, amount: i64) -> Transaction {
    Transaction {
        id: None,
        date: "2024-01-01".to_string(),
        description: "entry".to_string(),
        category: category.to_string(),
        amount,
    }
}

#[test]
fn category_spend_groups_expenses() {
    let txs = vec![tx("Food", -500), tx("Food", -300), tx("Salary", 1000)];
    let spend = category_spend(&txs);
    assert_eq!(spend.entries.len(), 1);
    assert_eq!(spend.entries[0].category, "Food");
    assert_eq!(spend.entries[0].total, 800);
    assert_eq!(spend.get("Food"), 800);
    assert_eq!(spend.get("Salary"), 0);
    assert_eq!(spend.get("Rent"), 0);
}

#[test]
fn category_spend_keeps_first_seen_order() {
    let txs = vec![tx("B", -1), tx("A", -2), tx("B", -4), tx("C", -8)];
    let spend = category_spend(&txs);
    let cats: Vec<&str> = spend.entries.iter().map(|e| e.category.as_str()).collect();
    assert_eq!(cats, vec!["B", "A", "C"]);
    assert_eq!(spend.get("B"), 5);
}

#[test]
fn category_spend_is_case_sensitive() {
    let txs = vec![tx("food", -10), tx("Food", -20)];
    let spend = category_spend(&txs);
    assert_eq!(spend.get("food"), 10);
    assert_eq!(spend.get("Food"), 20);
}

#[test]
fn budget_under_limit() {
    let txs = vec![tx("Food", -800)];
    let spend = category_spend(&txs);
    let status = budget_status(
        &BudgetItem { category: "Food".to_string(), limit: 1000 },
        &spend,
    );
    assert_eq!(status.spent, 800);
    assert_eq!(status.remaining, 200);
    assert_eq!(status.percent_used, 80);
    assert!(!status.overspent);
}

#[test]
fn budget_over_limit() {
    let txs = vec![tx("Food", -800)];
    let spend = category_spend(&txs);
    let status = budget_status(
        &BudgetItem { category: "Food".to_string(), limit: 500 },
        &spend,
    );
    assert_eq!(status.spent, 800);
    assert_eq!(status.remaining, -300);
    assert_eq!(status.percent_used, 160);
    assert!(status.overspent);
}

#[test]
fn budget_percent_rounds_half_up() {
    let txs = vec![tx("A", -5)];
    let spend = category_spend(&txs);
    let status = budget_status(&BudgetItem { category: "A".to_string(), limit: 200 }, &spend);
    // 5 / 200 = 2.5%, rounded half away from zero.
    assert_eq!(status.percent_used, 3);
}

#[test]
fn budget_with_no_spend() {
    let txs: Vec<Transaction> = Vec::new();
    let spend = category_spend(&txs);
    let status = budget_status(&BudgetItem { category: "Food".to_string(), limit: 10 }, &spend);
    assert_eq!(status.spent, 0);
    assert_eq!(status.remaining, 10);
    assert_eq!(status.percent_used, 0);
    assert!(!status.overspent);
}

#[test]
fn overview_totals() {
    let txs = vec![tx("Food", -800), tx("Fuel", -90), tx("Salary", 500)];
    let spend = category_spend(&txs);
    let budgets = vec![
        BudgetItem { category: "Food".to_string(), limit: 500 },
        BudgetItem { category: "Fuel".to_string(), limit: 100 },
        BudgetItem { category: "Rent".to_string(), limit: 400 },
    ];
    let overview = budget_overview(&budgets, &spend);
    assert_eq!(overview.total_budget, 1000);
    assert_eq!(overview.total_spent, 890);
    assert_eq!(overview.total_remaining, 110);
    assert_eq!(overview.overspent_count, 1);
}

#[test]
fn goal_progress_thirty_percent() {
    let goal = SavingGoalState {
        title: "Trip".to_string(),
        target_amount: 10000,
        target_date: "2025-01-01".to_string(),
        contributions: vec![
            Contribution {
                date: "2024-01-01".to_string(),
                description: "start".to_string(),
                amount: 1000,
            },
            Contribution {
                date: "2024-02-01".to_string(),
                description: "more".to_string(),
                amount: 2000,
            },
        ],
    };
    let p = goal_progress(&goal);
    assert_eq!(p.saved, 3000);
    assert_eq!(p.percent, 30);
    assert_eq!(format!("{}%", p.percent), "30%");
}

#[test]
fn goal_progress_zero_target() {
    let goal = SavingGoalState {
        title: "".to_string(),
        target_amount: 0,
        target_date: "".to_string(),
        contributions: vec![Contribution {
            date: "d".to_string(),
            description: "x".to_string(),
            amount: 5,
        }],
    };
    let p = goal_progress(&goal);
    assert_eq!(p.saved, 5);
    assert_eq!(p.percent, 0);
}

#[test]
fn goal_progress_clamped_at_full() {
    let goal = SavingGoalState {
        title: "t".to_string(),
        target_amount: 100,
        target_date: "".to_string(),
        contributions: vec![Contribution {
            date: "d".to_string(),
            description: "x".to_string(),
            amount: 250,
        }],
    };
    let p = goal_progress(&goal);
    assert_eq!(p.saved, 250);
    assert_eq!(p.percent, 100);
}

#[test]
fn top_categories_sorts_descending_stably() {
    let txs = vec![tx("A", -10), tx("B", -30), tx("C", -10), tx("D", -20)];
    let spend = category_spend(&txs);
    let top = top_categories(&spend, 3);
    let names: Vec<&str> = top.iter().map(|e| e.category.as_str()).collect();
    assert_eq!(names, vec!["B", "D", "A"]);
    let all = top_categories(&spend, 10);
    let names_all: Vec<&str> = all.iter().map(|e| e.category.as_str()).collect();
    // A and C tie on 10; A was seen first and stays first.
    assert_eq!(names_all, vec!["B", "D", "A", "C"]);
}

#[test]
fn filters_split_by_sign() {
    let txs = vec![tx("Food", -500), tx("Salary", 1000), tx("Fuel", -30), tx("Gift", 20)];
    let incomes = filter_income(&txs);
    let expenses = filter_expenses(&txs);
    assert_eq!(incomes.len(), 2);
    assert_eq!(incomes[0].category, "Salary");
    assert_eq!(incomes[1].category, "Gift");
    assert_eq!(expenses.len(), 2);
    assert_eq!(expenses[0].category, "Food");
    assert_eq!(expenses[1].category, "Fuel");
    assert_eq!(sum_income(&txs), 1020);
    assert_eq!(sum_expense_magnitude(&txs), 530);
    assert_eq!(sum_income(&incomes), 1020);
    assert_eq!(sum_expense_magnitude(&expenses), 530);
}
