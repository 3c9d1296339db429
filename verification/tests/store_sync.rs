use pondobro::auth::validate_credentials;
use pondobro::auth::AuthStatus;
use pondobro::auth::resolve_session;
use pondobro::budgets::prepare_budget;
use pondobro::budgets::upsert_budget;
use pondobro::goal::add_contribution;
use pondobro::goal::clear_goal;
use pondobro::goal::create_goal;
use pondobro::model::AppSettings;
use pondobro::model::BudgetItem;
use pondobro::model::Contribution;
use pondobro::model::DashboardSummary;
use pondobro::model::SavingGoalState;
use pondobro::model::Transaction;
use pondobro::store::ConfigStore;
use pondobro::sync::apply_create_response;
use pondobro::sync::merge_summary;
use pondobro::sync::prepend_transaction;
use pondobro::sync::submit_signed_entry;
use pondobro::sync::submit_transaction;
use pondobro::sync::take_recent;
use pondobro::sync::CreateResponse;
use pondobro::sync::SubmitDecision;

fn tx(category: &str, amount: i64) -> Transaction {
    Transaction {
        id: Some(7),
        date: "2024-01-01".to_string(),
        description: "entry".to_string(),
        category: category.to_string(),
        amount,
    }
}

#[test]
fn settings_round_trip() {
    let mut store = ConfigStore::new();
    let s = AppSettings { currency_code: "USD".to_string(), currency_symbol: "$".to_string() };
    store.save_settings(&s);
    assert_eq!(store.load_settings(), s);
}

#[test]
fn settings_default_when_absent() {
    let store = ConfigStore::new();
    let s = store.load_settings();
    assert_eq!(s.currency_code, "PHP");
    assert_eq!(s.currency_symbol, "₱");
}

#[test]
fn settings_default_when_corrupt() {
    let mut store = ConfigStore::new();
    store.settings_raw = Some("not json at all".to_string());
    let s = store.load_settings();
    assert_eq!(s.currency_code, "PHP");
    assert_eq!(s.currency_symbol, "₱");
}

#[test]
fn budgets_round_trip_with_tricky_text() {
    let mut store = ConfigStore::new();
    let items = vec![
        BudgetItem { category: "Caf\u{e9} \"bar\"\\corner\nfloor\t\u{1}".to_string(), limit: 1 },
        BudgetItem { category: "食費".to_string(), limit: i64::MAX },
        BudgetItem { category: "".to_string(), limit: 42 },
    ];
    store.save_budgets(&items);
    assert_eq!(store.load_budgets(), items);
}

#[test]
fn budgets_default_when_absent_or_corrupt() {
    let mut store = ConfigStore::new();
    assert!(store.load_budgets().is_empty());
    store.budgets_raw = Some("[{\"category\":".to_string());
    assert!(store.load_budgets().is_empty());
}

#[test]
fn empty_budget_list_round_trip() {
    let mut store = ConfigStore::new();
    store.save_budgets(&Vec::new());
    assert!(store.load_budgets().is_empty());
}

#[test]
fn goal_round_trip() {
    let mut store = ConfigStore::new();
    let goal = SavingGoalState {
        title: "Dream \"Wedding\"".to_string(),
        target_amount: 250000,
        target_date: "2026-06-01".to_string(),
        contributions: vec![
            Contribution {
                date: "2024-03-01".to_string(),
                description: "bonus\\savings".to_string(),
                amount: 1500,
            },
            Contribution {
                date: "2024-02-01".to_string(),
                description: "Contribution".to_string(),
                amount: 500,
            },
        ],
    };
    store.save_saving_goal(&goal);
    assert_eq!(store.load_saving_goal(), goal);
}

#[test]
fn goal_default_when_absent_or_corrupt() {
    let mut store = ConfigStore::new();
    let g = store.load_saving_goal();
    assert_eq!(g.title, "");
    assert_eq!(g.target_amount, 0);
    assert_eq!(g.target_date, "");
    assert!(g.contributions.is_empty());
    store.goal_raw = Some("{\"title\":3}".to_string());
    let g2 = store.load_saving_goal();
    assert_eq!(g2.title, "");
    assert_eq!(g2.target_amount, 0);
}

#[test]
fn settings_encode_to_plain_json() {
    let mut store = ConfigStore::new();
    store.save_settings(&AppSettings {
        currency_code: "USD".to_string(),
        currency_symbol: "$".to_string(),
    });
    assert_eq!(
        store.settings_raw.as_deref(),
        Some("{\"currency_code\":\"USD\",\"currency_symbol\":\"$\"}")
    );
}

#[test]
fn budgets_encode_to_plain_json() {
    let mut store = ConfigStore::new();
    store.save_budgets(&vec![
        BudgetItem { category: "Food".to_string(), limit: 500 },
        BudgetItem { category: "Fuel".to_string(), limit: -0 },
    ]);
    assert_eq!(
        store.budgets_raw.as_deref(),
        Some("[{\"category\":\"Food\",\"limit\":500},{\"category\":\"Fuel\",\"limit\":0}]")
    );
}

#[test]
fn strings_escape_like_json() {
    let mut store = ConfigStore::new();
    store.save_budgets(&vec![BudgetItem { category: "a\"b\\c\nd".to_string(), limit: 7 }]);
    assert_eq!(
        store.budgets_raw.as_deref(),
        Some("[{\"category\":\"a\\\"b\\\\c\\u000ad\",\"limit\":7}]")
    );
}

#[test]
fn loads_documents_written_by_others() {
    // The same compact field order serde's derive would have produced.
    let mut store = ConfigStore::new();
    store.settings_raw = Some("{\"currency_code\":\"JPY\",\"currency_symbol\":\"¥\"}".to_string());
    store.budgets_raw =
        Some("[{\"category\":\"Rent\",\"limit\":1200},{\"category\":\"Food\",\"limit\":300}]".to_string());
    store.goal_raw = Some(
        "{\"title\":\"Trip\",\"target_amount\":3,\"target_date\":\"2025-05-05\",\"contributions\":[{\"date\":\"2024-01-02\",\"description\":\"first\",\"amount\":40}]}"
            .to_string(),
    );
    let s = store.load_settings();
    assert_eq!(s.currency_code, "JPY");
    assert_eq!(s.currency_symbol, "¥");
    let budgets = store.load_budgets();
    assert_eq!(budgets.len(), 2);
    assert_eq!(budgets[1].category, "Food");
    let goal = store.load_saving_goal();
    assert_eq!(goal.title, "Trip");
    assert_eq!(goal.target_amount, 3);
    assert_eq!(goal.contributions.len(), 1);
    assert_eq!(goal.contributions[0].description, "first");
}

#[test]
fn invariant_breaking_documents_fall_back_to_defaults() {
    let mut store = ConfigStore::new();
    // Decodes structurally, but the zero limit breaks the budget invariant.
    store.budgets_raw = Some("[{\"category\":\"Food\",\"limit\":0}]".to_string());
    assert!(store.load_budgets().is_empty());
    // Two categories equal up to case break uniqueness.
    store.budgets_raw = Some(
        "[{\"category\":\"Food\",\"limit\":5},{\"category\":\"FOOD\",\"limit\":6}]".to_string(),
    );
    assert!(store.load_budgets().is_empty());
    // A negative target breaks the goal invariant.
    store.goal_raw = Some(
        "{\"title\":\"Trip\",\"target_amount\":-3,\"target_date\":\"\",\"contributions\":[]}"
            .to_string(),
    );
    assert_eq!(store.load_saving_goal().title, "");
}

#[test]
fn store_keys_are_independent() {
    let mut store = ConfigStore::new();
    store.save_budgets(&vec![BudgetItem { category: "Food".to_string(), limit: 10 }]);
    store.save_settings(&AppSettings {
        currency_code: "EUR".to_string(),
        currency_symbol: "€".to_string(),
    });
    assert_eq!(store.load_budgets().len(), 1);
    assert_eq!(store.load_settings().currency_code, "EUR");
    assert_eq!(store.load_saving_goal().title, "");
}

#[test]
fn upsert_replaces_case_insensitively() {
    let mut budgets = vec![
        BudgetItem { category: "Food".to_string(), limit: 100 },
        BudgetItem { category: "Fuel".to_string(), limit: 50 },
    ];
    upsert_budget(&mut budgets, BudgetItem { category: "FOOD".to_string(), limit: 900 });
    assert_eq!(budgets.len(), 2);
    assert_eq!(budgets[0].category, "Food");
    assert_eq!(budgets[0].limit, 900);
    assert_eq!(budgets[1].limit, 50);
}

#[test]
fn upsert_appends_new_category() {
    let mut budgets = vec![BudgetItem { category: "Food".to_string(), limit: 100 }];
    upsert_budget(&mut budgets, BudgetItem { category: "Rent".to_string(), limit: 400 });
    assert_eq!(budgets.len(), 2);
    assert_eq!(budgets[1].category, "Rent");
    assert_eq!(budgets[1].limit, 400);
}

#[test]
fn prepare_budget_validates() {
    assert_eq!(
        prepare_budget("  Food  ", " 250 "),
        Ok(BudgetItem { category: "Food".to_string(), limit: 250 })
    );
    assert_eq!(
        prepare_budget("   ", "250"),
        Err("Enter a category and a positive limit.".to_string())
    );
    assert_eq!(
        prepare_budget("Food", "0"),
        Err("Enter a category and a positive limit.".to_string())
    );
    assert_eq!(
        prepare_budget("Food", "-5"),
        Err("Enter a category and a positive limit.".to_string())
    );
    assert_eq!(
        prepare_budget("Food", "lots"),
        Err("Enter a category and a positive limit.".to_string())
    );
}

#[test]
fn submit_rejects_empty_description() {
    let r = submit_transaction(false, "2024-01-01", "   ", "Food", "10");
    assert_eq!(r, SubmitDecision::Invalid("Please complete all fields.".to_string()));
}

#[test]
fn submit_rejects_zero_amount() {
    let r = submit_transaction(false, "2024-01-01", "lunch", "Food", "0");
    assert_eq!(r, SubmitDecision::Invalid("Amount must be a non-zero number.".to_string()));
    let r2 = submit_transaction(false, "2024-01-01", "lunch", "Food", "ten");
    assert_eq!(r2, SubmitDecision::Invalid("Amount must be a non-zero number.".to_string()));
}

#[test]
fn submit_accepts_negative_amount() {
    let r = submit_transaction(false, " 2024-01-01 ", " lunch ", " Food ", " -75 ");
    match r {
        SubmitDecision::Send(p) => {
            assert_eq!(p.date, "2024-01-01");
            assert_eq!(p.description, "lunch");
            assert_eq!(p.category, "Food");
            assert_eq!(p.amount, -75);
        },
        _ => panic!("expected a request body"),
    }
}

#[test]
fn submit_busy_while_saving() {
    let r = submit_transaction(true, "2024-01-01", "lunch", "Food", "10");
    assert_eq!(r, SubmitDecision::Busy);
}

#[test]
fn signed_entry_requires_positive_amount() {
    let r = submit_signed_entry(false, "2024-01-01", "salary", "Salary", "-5", false);
    assert_eq!(r, SubmitDecision::Invalid("Amount must be a positive number.".to_string()));
}

#[test]
fn expense_entry_negates_amount() {
    let r = submit_signed_entry(false, "2024-01-01", "bus", "Transportation", "40", true);
    match r {
        SubmitDecision::Send(p) => assert_eq!(p.amount, -40),
        _ => panic!("expected a request body"),
    }
    let r2 = submit_signed_entry(false, "2024-01-01", "pay", "Salary", "40", false);
    match r2 {
        SubmitDecision::Send(p) => assert_eq!(p.amount, 40),
        _ => panic!("expected a request body"),
    }
}

#[test]
fn created_entry_is_prepended() {
    let mut list = vec![tx("Food", -10)];
    let aftermath = apply_create_response(&mut list, CreateResponse::Created(tx("Fuel", -20)));
    assert_eq!(list.len(), 2);
    assert_eq!(list[0].category, "Fuel");
    assert_eq!(list[1].category, "Food");
    assert_eq!(aftermath.success, Some("Transaction saved.".to_string()));
    assert_eq!(aftermath.error, None);
    assert!(!aftermath.saving);
    assert!(aftermath.refresh_summary);
    assert!(aftermath.clear_form);
}

#[test]
fn failed_create_reports_and_keeps_list() {
    let mut list = vec![tx("Food", -10)];
    let aftermath = apply_create_response(&mut list, CreateResponse::Failed);
    assert_eq!(list.len(), 1);
    assert_eq!(aftermath.error, Some("Could not save the transaction.".to_string()));
    assert_eq!(aftermath.success, None);
    assert!(!aftermath.saving);
    assert!(!aftermath.refresh_summary);
}

#[test]
fn malformed_create_reports_and_keeps_list() {
    let mut list: Vec<Transaction> = Vec::new();
    let aftermath = apply_create_response(&mut list, CreateResponse::Malformed);
    assert!(list.is_empty());
    assert_eq!(aftermath.error, Some("Could not read the saved transaction.".to_string()));
}

#[test]
fn prepend_puts_newest_first() {
    let mut list = vec![tx("A", 1)];
    prepend_transaction(&mut list, tx("B", 2));
    assert_eq!(list[0].category, "B");
    assert_eq!(list[1].category, "A");
}

#[test]
fn take_recent_truncates() {
    let txs = vec![tx("A", 1), tx("B", 2), tx("C", 3)];
    let two = take_recent(&txs, 2);
    assert_eq!(two.len(), 2);
    assert_eq!(two[0].category, "A");
    assert_eq!(two[1].category, "B");
    let all = take_recent(&txs, 10);
    assert_eq!(all.len(), 3);
}

#[test]
fn summary_fields_merge_independently() {
    let current = DashboardSummary { total_income: 1, total_expenses: 2, balance: 3 };
    let merged = merge_summary(current, Some(100), None, Some(-50));
    assert_eq!(merged.total_income, 100);
    assert_eq!(merged.total_expenses, 2);
    assert_eq!(merged.balance, -50);
}

#[test]
fn session_resolution() {
    assert_eq!(resolve_session(true, None), AuthStatus::Authenticated);
    assert_eq!(resolve_session(false, Some("tok")), AuthStatus::Authenticated);
    assert_eq!(resolve_session(false, Some("")), AuthStatus::Unauthenticated);
    assert_eq!(resolve_session(false, None), AuthStatus::Unauthenticated);
}

#[test]
fn bearer_header_built_when_token_present() {
    assert_eq!(
        pondobro::auth::bearer_header(Some("abc123")),
        Some("Bearer abc123".to_string())
    );
    // Any present token is forwarded, even an empty one.
    assert_eq!(pondobro::auth::bearer_header(Some("")), Some("Bearer ".to_string()));
    assert_eq!(pondobro::auth::bearer_header(None), None);
}

#[test]
fn credential_checks() {
    assert_eq!(
        validate_credentials("", "password123", "password123", true),
        Some("Email and password are required".to_string())
    );
    assert_eq!(
        validate_credentials("a@b.c", "short", "short", true),
        Some("Password must be at least 8 characters".to_string())
    );
    assert_eq!(
        validate_credentials("a@b.c", "password123", "different", false),
        Some("Passwords do not match".to_string())
    );
    assert_eq!(validate_credentials("a@b.c", "password123", "different", true), None);
    assert_eq!(validate_credentials("a@b.c", "password123", "password123", false), None);
}

#[test]
fn goal_lifecycle() {
    let created = create_goal("Car", "5000", "2025-12-31").expect("valid form");
    assert_eq!(created.title, "Car");
    assert_eq!(created.target_amount, 5000);
    assert_eq!(created.target_date, "2025-12-31");
    assert!(created.contributions.is_empty());
    assert!(create_goal("", "5000", "").is_none());
    assert!(create_goal("Car", "", "").is_none());
    let negative = create_goal("Car", "-10", "").expect("form accepts, target floors at zero");
    assert_eq!(negative.target_amount, 0);
    let cleared = clear_goal();
    assert_eq!(cleared.title, "");
    assert_eq!(cleared.target_amount, 0);
    assert!(cleared.contributions.is_empty());
}

#[test]
fn contribution_dual_write() {
    let mut goal = create_goal("Car", "5000", "2025-12-31").expect("valid form");
    let companion = add_contribution(&mut goal, "2024-04-01", "", "750").expect("positive amount");
    assert_eq!(goal.contributions.len(), 1);
    assert_eq!(goal.contributions[0].description, "Contribution");
    assert_eq!(goal.contributions[0].amount, 750);
    assert_eq!(companion.category, "Savings");
    assert_eq!(companion.description, "Savings");
    assert_eq!(companion.amount, -750);
    let companion2 =
        add_contribution(&mut goal, "2024-05-01", "monthly", "250").expect("positive amount");
    assert_eq!(goal.contributions.len(), 2);
    assert_eq!(goal.contributions[0].description, "monthly");
    assert_eq!(goal.contributions[1].description, "Contribution");
    assert_eq!(companion2.description, "monthly");
    assert_eq!(companion2.amount, -250);
}

#[test]
fn contribution_rejected_when_not_positive() {
    let mut goal = clear_goal();
    assert!(add_contribution(&mut goal, "2024-04-01", "x", "0").is_none());
    assert!(add_contribution(&mut goal, "2024-04-01", "x", "-3").is_none());
    assert!(add_contribution(&mut goal, "2024-04-01", "x", "soon").is_none());
    assert!(goal.contributions.is_empty());
}
