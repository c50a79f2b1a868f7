use finops::domain::{AccountInput, Budget, BudgetInput, Expense, ExpenseInput};
use finops::error::ApiError;
use finops::routes::handlers::{
    budget_summary, create_account, create_budget, create_expense, delete_account,
    delete_budget, delete_expense, expense_matches, get_account, get_budget, health,
    list_accounts, list_budgets, list_expenses, update_account, update_budget, update_expense,
    ExpenseFilters,
};
use finops::services::analytics::{spent_cents, summary_in_range};
use finops::state::AppState;
use finops::text::{contains_text, text_le_exec};

const BUDGET: u128 = 0x11;

fn budget(id: u128, name: &str, limit_cents: i64) -> Budget {
    Budget { id, name: name.into(), limit_cents, notes: None }
}

fn expense(id: u128, budget_id: u128, description: &str, amount_cents: i64) -> Expense {
    Expense { id, budget_id, description: description.into(), amount_cents }
}

fn no_filters() -> ExpenseFilters {
    ExpenseFilters { min_amount: None, max_amount: None, q: None }
}

fn descriptions(listed: &[Expense]) -> Vec<String> {
    listed.iter().map(|e| e.description.clone()).collect()
}

#[test]
fn budget_summary_reports_remaining_and_utilization() {
    let mut state = AppState::default();
    state.budgets.insert(BUDGET, budget(BUDGET, "Groceries", 10_000));
    state.expenses.insert(0x901, expense(0x501, BUDGET, "Weekly shop", 2_500));
    state.expenses.insert(0x902, expense(0x502, BUDGET, "Top-up shop", 3_000));

    assert!(summary_in_range(&state, BUDGET));
    let summary = budget_summary(&state, BUDGET).expect("summary");
    assert_eq!(summary.spent_cents, 5_500);
    assert_eq!(summary.remaining_cents, 4_500);
    let (spent, limit) = summary.utilization_parts().expect("positive limit");
    let utilization = spent as f64 / limit as f64;
    assert!((utilization - 0.55).abs() < f64::EPSILON);
}

#[test]
fn list_expenses_supports_filters() {
    let mut state = AppState::default();
    state.budgets.insert(BUDGET, budget(BUDGET, "Household", 50_000));
    state.expenses.insert(0x904, expense(0x1, BUDGET, "Weekly shop", 12_000));
    state.expenses.insert(0x903, expense(0x2, BUDGET, "Online shop", 8_000));
    state.expenses.insert(0x902, expense(0x3, BUDGET, "Utilities", 5_000));
    state.expenses.insert(0x901, expense(0x4, BUDGET, "Coffee", 400));

    let filters = ExpenseFilters {
        min_amount: Some(6000),
        max_amount: Some(15000),
        q: Some("shop".into()),
    };
    let expenses = list_expenses(&state, BUDGET, &filters).expect("listing");
    assert_eq!(expenses.len(), 2);
    assert_eq!(expenses[0].description, "Online shop");
    assert_eq!(expenses[1].description, "Weekly shop");
}

#[test]
fn list_expenses_returns_not_found_for_unknown_budget() {
    let state = AppState::default();
    let listed = list_expenses(&state, 0xdead, &no_filters());
    let error = listed.expect_err("unknown budget");
    assert!(matches!(error, ApiError::NotFound));
    assert_eq!(error.status_code(), 404);
}

#[test]
fn health_answers_ok() {
    assert_eq!(health(), "ok");
}

#[test]
fn created_account_reads_back_and_carries_a_v4_id() {
    let mut state = AppState::default();
    let account = create_account(
        &mut state,
        AccountInput { name: "Checking".into(), owner: "Alex".into(), notes: Some("Personal".into()) },
    );
    assert_eq!(account.name, "Checking");
    assert_eq!(account.owner, "Alex");
    assert_eq!(account.notes.as_deref(), Some("Personal"));
    assert_eq!((account.id >> 76) & 0xF, 4);
    assert_eq!((account.id >> 62) & 0x3, 2);
    let read = get_account(&state, account.id).expect("stored");
    assert_eq!(read.id, account.id);
    assert_eq!(read.name, "Checking");
    assert_eq!(list_accounts(&state).len(), 1);
}

#[test]
fn two_created_accounts_get_different_ids() {
    let mut state = AppState::default();
    let input = || AccountInput { name: "A".into(), owner: "B".into(), notes: None };
    let first = create_account(&mut state, input());
    let second = create_account(&mut state, input());
    assert_ne!(first.id, second.id);
    assert_eq!(list_accounts(&state).len(), 2);
}

#[test]
fn account_update_and_delete() {
    let mut state = AppState::default();
    let account = create_account(
        &mut state,
        AccountInput { name: "Old".into(), owner: "Sam".into(), notes: None },
    );
    let updated = update_account(
        &mut state,
        account.id,
        AccountInput { name: "New".into(), owner: "Kim".into(), notes: Some("n".into()) },
    )
    .expect("exists");
    assert_eq!(updated.id, account.id);
    assert_eq!(updated.name, "New");
    assert_eq!(get_account(&state, account.id).expect("stored").owner, "Kim");

    assert!(matches!(
        update_account(
            &mut state,
            account.id ^ 1,
            AccountInput { name: "X".into(), owner: "Y".into(), notes: None }
        ),
        Err(ApiError::NotFound)
    ));

    assert!(delete_account(&mut state, account.id).is_ok());
    assert!(matches!(get_account(&state, account.id), Err(ApiError::NotFound)));
    assert!(matches!(delete_account(&mut state, account.id), Err(ApiError::NotFound)));
}

#[test]
fn accounts_are_listed_in_key_order() {
    let mut state = AppState::default();
    for (key, name) in [(30u128, "c"), (10, "a"), (20, "b")] {
        state.accounts.insert(
            key,
            finops::domain::Account { id: key, name: name.into(), owner: "o".into(), notes: None },
        );
    }
    let names: Vec<String> = list_accounts(&state).into_iter().map(|a| a.name).collect();
    assert_eq!(names, vec!["a", "b", "c"]);
}

#[test]
fn budget_with_negative_limit_is_refused() {
    let mut state = AppState::default();
    let refused = create_budget(
        &mut state,
        BudgetInput { name: "Bad".into(), limit_cents: -1, notes: None },
    );
    let error = refused.expect_err("negative limit");
    assert!(matches!(&error, ApiError::Invalid(reason) if reason.as_str() == "limit must be positive"));
    assert_eq!(error.status_code(), 400);
    assert_eq!(error.message(), "invalid request: limit must be positive");
    assert!(list_budgets(&state).is_empty());
}

#[test]
fn budget_with_zero_limit_is_accepted() {
    let mut state = AppState::default();
    let created = create_budget(
        &mut state,
        BudgetInput { name: "Zero".into(), limit_cents: 0, notes: None },
    )
    .expect("zero is allowed");
    assert_eq!(created.limit_cents, 0);
    assert_eq!(get_budget(&state, created.id).expect("stored").name, "Zero");
}

#[test]
fn budget_update_checks_limit_before_lookup() {
    let mut state = AppState::default();
    let refused = update_budget(
        &mut state,
        0x77,
        BudgetInput { name: "X".into(), limit_cents: -5, notes: None },
    );
    assert!(matches!(refused, Err(ApiError::Invalid(_))));
    let missing = update_budget(
        &mut state,
        0x77,
        BudgetInput { name: "X".into(), limit_cents: 5, notes: None },
    );
    assert!(matches!(missing, Err(ApiError::NotFound)));

    let created = create_budget(
        &mut state,
        BudgetInput { name: "Food".into(), limit_cents: 100, notes: None },
    )
    .expect("created");
    let updated = update_budget(
        &mut state,
        created.id,
        BudgetInput { name: "Food+".into(), limit_cents: 250, notes: Some("more".into()) },
    )
    .expect("updated");
    assert_eq!(updated.id, created.id);
    assert_eq!(get_budget(&state, created.id).expect("stored").limit_cents, 250);
    assert!(delete_budget(&mut state, created.id).is_ok());
    assert!(matches!(get_budget(&state, created.id), Err(ApiError::NotFound)));
}

#[test]
fn expense_creation_checks_amount_then_budget() {
    let mut state = AppState::default();
    let zero = create_expense(
        &mut state,
        BUDGET,
        ExpenseInput { description: "Free".into(), amount_cents: 0 },
    );
    let error = zero.expect_err("zero amount");
    assert_eq!(error.message(), "invalid request: amount must be positive");

    let orphan = create_expense(
        &mut state,
        BUDGET,
        ExpenseInput { description: "Lunch".into(), amount_cents: 900 },
    );
    assert!(matches!(orphan, Err(ApiError::NotFound)));
    assert!(state.expenses.is_empty());

    state.budgets.insert(BUDGET, budget(BUDGET, "Food", 10_000));
    let created = create_expense(
        &mut state,
        BUDGET,
        ExpenseInput { description: "Lunch".into(), amount_cents: 900 },
    )
    .expect("created");
    assert_eq!(created.budget_id, BUDGET);
    assert_eq!(created.amount_cents, 900);
    assert_eq!(state.expenses.len(), 1);
}

#[test]
fn expense_update_and_delete_require_their_budget() {
    let mut state = AppState::default();
    state.budgets.insert(BUDGET, budget(BUDGET, "Food", 10_000));
    state.expenses.insert(0x5, expense(0x5, BUDGET, "Lunch", 900));

    let wrong = update_expense(
        &mut state,
        0x12,
        0x5,
        ExpenseInput { description: "Dinner".into(), amount_cents: 1_200 },
    );
    assert!(matches!(wrong, Err(ApiError::NotFound)));
    let negative = update_expense(
        &mut state,
        BUDGET,
        0x5,
        ExpenseInput { description: "Dinner".into(), amount_cents: -3 },
    );
    assert!(matches!(negative, Err(ApiError::Invalid(_))));
    let updated = update_expense(
        &mut state,
        BUDGET,
        0x5,
        ExpenseInput { description: "Dinner".into(), amount_cents: 1_200 },
    )
    .expect("updated");
    assert_eq!(updated.description, "Dinner");
    assert_eq!(state.expenses[&0x5].amount_cents, 1_200);

    assert!(matches!(delete_expense(&mut state, 0x12, 0x5), Err(ApiError::NotFound)));
    assert_eq!(state.expenses.len(), 1);
    assert!(delete_expense(&mut state, BUDGET, 0x5).is_ok());
    assert!(state.expenses.is_empty());
    assert!(matches!(delete_expense(&mut state, BUDGET, 0x5), Err(ApiError::NotFound)));
}

#[test]
fn listing_ignores_case_and_keeps_key_order_among_equal_descriptions() {
    let mut state = AppState::default();
    state.budgets.insert(BUDGET, budget(BUDGET, "Food", 10_000));
    state.expenses.insert(0x3, expense(0x30, BUDGET, "Snack", 300));
    state.expenses.insert(0x1, expense(0x10, BUDGET, "Snack", 100));
    state.expenses.insert(0x2, expense(0x20, BUDGET, "Big SHOP", 200));
    state.expenses.insert(0x4, expense(0x40, 0x99, "Snack", 50));

    let all = list_expenses(&state, BUDGET, &no_filters()).expect("listing");
    assert_eq!(descriptions(&all), vec!["Big SHOP", "Snack", "Snack"]);
    assert_eq!(all[1].id, 0x10);
    assert_eq!(all[2].id, 0x30);

    let shop = ExpenseFilters { min_amount: None, max_amount: None, q: Some("sHoP".into()) };
    let found = list_expenses(&state, BUDGET, &shop).expect("listing");
    assert_eq!(descriptions(&found), vec!["Big SHOP"]);

    let empty_query = ExpenseFilters { min_amount: None, max_amount: None, q: Some(String::new()) };
    assert_eq!(list_expenses(&state, BUDGET, &empty_query).expect("listing").len(), 3);

    let bounds = ExpenseFilters { min_amount: Some(100), max_amount: Some(200), q: None };
    let bounded = list_expenses(&state, BUDGET, &bounds).expect("listing");
    assert_eq!(descriptions(&bounded), vec!["Big SHOP", "Snack"]);
}

#[test]
fn listing_sorts_by_code_point_order() {
    let mut state = AppState::default();
    state.budgets.insert(BUDGET, budget(BUDGET, "Food", 10_000));
    state.expenses.insert(0x1, expense(0x1, BUDGET, "b", 1));
    state.expenses.insert(0x2, expense(0x2, BUDGET, "a", 1));
    state.expenses.insert(0x3, expense(0x3, BUDGET, "B", 1));
    state.expenses.insert(0x4, expense(0x4, BUDGET, "ab", 1));
    let all = list_expenses(&state, BUDGET, &no_filters()).expect("listing");
    assert_eq!(descriptions(&all), vec!["B", "a", "ab", "b"]);
}

#[test]
fn expense_matches_reads_the_lowered_description() {
    let e = expense(0x1, BUDGET, "Weekly Shop", 500);
    let query = Some("shop".to_string());
    assert!(expense_matches(&e, BUDGET, None, None, &query, "weekly shop"));
    assert!(!expense_matches(&e, BUDGET, None, None, &query, "Weekly Shop"));
    assert!(!expense_matches(&e, 0x12, None, None, &None, ""));
    assert!(!expense_matches(&e, BUDGET, Some(501), None, &None, ""));
    assert!(!expense_matches(&e, BUDGET, None, Some(499), &None, ""));
    assert!(expense_matches(&e, BUDGET, Some(500), Some(500), &Some(String::new()), ""));
}

#[test]
fn summary_of_unknown_budget_is_not_found() {
    let state = AppState::default();
    assert!(summary_in_range(&state, BUDGET));
    assert!(matches!(budget_summary(&state, BUDGET), Err(ApiError::NotFound)));
}

#[test]
fn summary_counts_only_its_budget_and_allows_overspending() {
    let mut state = AppState::default();
    state.budgets.insert(BUDGET, budget(BUDGET, "Fun", 1_000));
    state.expenses.insert(0x1, expense(0x1, BUDGET, "Show", 1_500));
    state.expenses.insert(0x2, expense(0x2, 0x12, "Other", 7_000));
    let summary = budget_summary(&state, BUDGET).expect("summary");
    assert_eq!(summary.spent_cents, 1_500);
    assert_eq!(summary.remaining_cents, -500);
    assert_eq!(summary.utilization_parts(), Some((1_500, 1_000)));
}

#[test]
fn utilization_is_zero_without_a_positive_limit() {
    let mut state = AppState::default();
    state.budgets.insert(BUDGET, budget(BUDGET, "None", 0));
    state.expenses.insert(0x1, expense(0x1, BUDGET, "Thing", 10));
    let summary = budget_summary(&state, BUDGET).expect("summary");
    assert_eq!(summary.utilization_parts(), None);
    assert_eq!(summary.remaining_cents, -10);
}

#[test]
fn overflowing_spending_is_detected() {
    let mut state = AppState::default();
    state.budgets.insert(BUDGET, budget(BUDGET, "Huge", 0));
    state.expenses.insert(0x1, expense(0x1, BUDGET, "A", i64::MAX));
    state.expenses.insert(0x2, expense(0x2, BUDGET, "B", 1));
    assert_eq!(spent_cents(&state.expenses, BUDGET), None);
    assert!(!summary_in_range(&state, BUDGET));
    assert_eq!(spent_cents(&state.expenses, 0x12), Some(0));
}

#[test]
fn remaining_that_overflows_is_detected() {
    let mut state = AppState::default();
    state.budgets.insert(BUDGET, budget(BUDGET, "Low", i64::MIN + 5));
    state.expenses.insert(0x1, expense(0x1, BUDGET, "A", 10));
    assert_eq!(spent_cents(&state.expenses, BUDGET), Some(10));
    assert!(!summary_in_range(&state, BUDGET));
}

#[test]
fn not_found_error_text() {
    assert_eq!(ApiError::NotFound.message(), "resource not found");
    assert_eq!(ApiError::Invalid("x".into()).status_code(), 400);
}

#[test]
fn spending_follows_expense_changes() {
    let mut state = AppState::default();
    state.budgets.insert(BUDGET, budget(BUDGET, "Food", 10_000));
    state.budgets.insert(0x12, budget(0x12, "Fun", 10_000));
    let spent = |state: &AppState, id: u128| budget_summary(state, id).expect("summary").spent_cents;

    let lunch = create_expense(
        &mut state,
        BUDGET,
        ExpenseInput { description: "Lunch".into(), amount_cents: 900 },
    )
    .expect("created");
    assert_eq!(spent(&state, BUDGET), 900);
    assert_eq!(spent(&state, 0x12), 0);

    create_expense(&mut state, 0x12, ExpenseInput { description: "Film".into(), amount_cents: 1_100 })
        .expect("created");
    assert_eq!(spent(&state, BUDGET), 900);
    assert_eq!(spent(&state, 0x12), 1_100);

    update_expense(
        &mut state,
        BUDGET,
        lunch.id,
        ExpenseInput { description: "Big lunch".into(), amount_cents: 1_200 },
    )
    .expect("updated");
    assert_eq!(spent(&state, BUDGET), 1_200);
    assert_eq!(budget_summary(&state, BUDGET).expect("summary").remaining_cents, 8_800);

    delete_expense(&mut state, BUDGET, lunch.id).expect("deleted");
    assert_eq!(spent(&state, BUDGET), 0);
    assert_eq!(spent(&state, 0x12), 1_100);
}

#[test]
fn writes_leave_other_records_alone() {
    let mut state = AppState::default();
    let input = |name: &str| AccountInput { name: name.into(), owner: "o".into(), notes: None };
    let first = create_account(&mut state, input("first"));
    let second = create_account(&mut state, input("second"));
    update_account(&mut state, first.id, input("changed")).expect("updated");
    assert_eq!(get_account(&state, second.id).expect("kept").name, "second");
    delete_account(&mut state, first.id).expect("deleted");
    assert_eq!(get_account(&state, second.id).expect("kept").name, "second");
    assert_eq!(list_accounts(&state).len(), 1);
}

#[test]
fn deleting_a_budget_keeps_its_expenses() {
    let mut state = AppState::default();
    state.budgets.insert(BUDGET, budget(BUDGET, "Food", 10_000));
    state.expenses.insert(0x1, expense(0x1, BUDGET, "Lunch", 900));
    delete_budget(&mut state, BUDGET).expect("deleted");
    assert_eq!(state.expenses.len(), 1);
    assert!(matches!(list_expenses(&state, BUDGET, &no_filters()), Err(ApiError::NotFound)));
}

#[test]
fn text_search_and_order_work_on_characters() {
    assert!(contains_text("abc", "bc"));
    assert!(contains_text("abc", ""));
    assert!(contains_text("", ""));
    assert!(!contains_text("ab", "abc"));
    assert!(!contains_text("abc", "ac"));
    assert!(contains_text("héllo wörld", "lo wö"));
    assert!(text_le_exec("ab", "abc"));
    assert!(!text_le_exec("abc", "ab"));
    assert!(text_le_exec("B", "a"));
    assert!(text_le_exec("same", "same"));
    assert!(text_le_exec("é", "ê"));
    assert!(text_le_exec("z", "é"));
    assert!(!text_le_exec("é", "z"));
}

#[test]
fn created_expense_is_listed_exactly_once() {
    let mut state = AppState::default();
    state.budgets.insert(BUDGET, budget(BUDGET, "Food", 10_000));
    state.expenses.insert(0x1, expense(0x1, BUDGET, "Lunch", 900));
    state.expenses.insert(0x2, expense(0x2, 0x12, "Film", 1_100));
    let created = create_expense(
        &mut state,
        BUDGET,
        ExpenseInput { description: "Lunch".into(), amount_cents: 300 },
    )
    .expect("created");
    let listed = list_expenses(&state, BUDGET, &no_filters()).expect("listing");
    assert_eq!(listed.iter().filter(|e| e.id == created.id).count(), 1);
    assert_eq!(listed.len(), 2);
}
