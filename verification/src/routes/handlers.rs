//! The service's request handlers: what each request reads and changes in
//! the records, and what it answers.

use vstd::prelude::*;
use vstd::std_specs::btree::spec_btree_map_iter;
use vstd::std_specs::iter::IteratorSpec;

use crate::domain::{
    Account, AccountInput, Budget, BudgetInput, BudgetSummary, Expense, ExpenseInput,
};
use crate::error::{is_invalid_with, ApiError};
use crate::ids::{new_id, UUID_V4_BITS, UUID_V4_MASK};
use crate::services::analytics::{build_budget_summary, summary_fits_for, total_spent};
use crate::services::sorting::{
    has_description, insert_by_description, stably_sorted, with_description,
};
use crate::laws::{law_listing_is_complete, law_listing_respects_filters};
use crate::state::{
    keys_in_order, lemma_iter_in_key_order, values_in_key_order, values_in_order, AppState,
};
use crate::text::{contains_text, lemma_occurs_in_subrange, lowercase, occurs_in, to_lowercase};

verus! {

broadcast use {vstd::std_specs::btree::group_btree_axioms, vstd::laws_cmp::group_laws_cmp};

/// What a read of `id` in `records` answers: the record, or `NotFound`.
pub open spec fn lookup<V>(records: Map<u128, V>, id: u128) -> Result<V, ApiError> {
    if records.contains_key(id) {
        Ok(records[id])
    } else {
        Err(ApiError::NotFound)
    }
}

/// The records after a write of `id` that answered `outcome`: the new
/// record where it succeeded, nothing changed where it was refused.
pub open spec fn after_write<V>(records: Map<u128, V>, id: u128, outcome: Result<V, ApiError>) -> Map<
    u128,
    V,
> {
    match outcome {
        Ok(record) => records.insert(id, record),
        Err(_) => records,
    }
}

/// What an edit of account `id` with `input` answers.
pub open spec fn account_edit(accounts: Map<u128, Account>, id: u128, input: AccountInput) -> Result<
    Account,
    ApiError,
> {
    match lookup(accounts, id) {
        Ok(existing) => Ok(existing.edited(input)),
        Err(e) => Err(e),
    }
}

/// What a delete of `id` in `records` answers.
pub open spec fn delete_outcome<V>(records: Map<u128, V>, id: u128) -> Result<(), ApiError> {
    if records.contains_key(id) {
        Ok(())
    } else {
        Err(ApiError::NotFound)
    }
}

/// The reason given for a budget limit below zero.
pub open spec fn negative_limit_reason() -> Seq<char> {
    "limit must be positive"@
}

/// The reason given for an expense amount that is not above zero.
pub open spec fn non_positive_amount_reason() -> Seq<char> {
    "amount must be positive"@
}

/// The service answers a health check with `ok`.
pub fn health() -> (status: &'static str)
    ensures
        status@ == "ok"@,
{
    "ok"
}

/// Every account, in the order of their keys.
pub fn list_accounts(state: &AppState) -> (accounts: Vec<Account>)
    ensures
        accounts@ == values_in_key_order(state.accounts@),
{
    values_in_order(&state.accounts)
}

/// Stores a new account made of `payload` under a fresh random id, and
/// returns it.
pub fn create_account(state: &mut AppState, payload: AccountInput) -> (account: Account)
    ensures
        account == Account::created(account.id, payload),
        account.name == payload.name && account.owner == payload.owner && account.notes
            == payload.notes,
        account.id & UUID_V4_MASK == UUID_V4_BITS,
        final(state).accounts@ == old(state).accounts@.insert(account.id, account),
        final(state).budgets@ == old(state).budgets@,
        final(state).expenses@ == old(state).expenses@,
{
    let id = new_id();
    let account = Account { id, name: payload.name, owner: payload.owner, notes: payload.notes };
    state.accounts.insert(id, account.clone());
    account
}

/// The account stored under `id`.
pub fn get_account(state: &AppState, id: u128) -> (account: Result<Account, ApiError>)
    ensures
        account == lookup(state.accounts@, id),
{
    match state.accounts.get(&id) {
        Some(account) => Ok(account.clone()),
        None => Err(ApiError::NotFound),
    }
}

/// Replaces the name, owner and notes of the account under `id`.
pub fn update_account(state: &mut AppState, id: u128, payload: AccountInput) -> (account: Result<
    Account,
    ApiError,
>)
    ensures
        account == account_edit(old(state).accounts@, id, payload),
        final(state).accounts@ == after_write(old(state).accounts@, id, account),
        old(state).accounts@.contains_key(id) <==> account is Ok,
        account matches Ok(a) ==> a.id == old(state).accounts@[id].id && a.name == payload.name
            && a.owner == payload.owner && a.notes == payload.notes,
        final(state).budgets@ == old(state).budgets@,
        final(state).expenses@ == old(state).expenses@,
{
    let existing_id = match state.accounts.get(&id) {
        Some(existing) => existing.id,
        None => return Err(ApiError::NotFound),
    };
    let account = Account {
        id: existing_id,
        name: payload.name,
        owner: payload.owner,
        notes: payload.notes,
    };
    state.accounts.insert(id, account.clone());
    Ok(account)
}

/// Removes the account under `id`.
pub fn delete_account(state: &mut AppState, id: u128) -> (outcome: Result<(), ApiError>)
    ensures
        outcome == delete_outcome(old(state).accounts@, id),
        outcome is Ok <==> old(state).accounts@.contains_key(id),
        final(state).accounts@ == old(state).accounts@.remove(id),
        final(state).budgets@ == old(state).budgets@,
        final(state).expenses@ == old(state).expenses@,
{
    match state.accounts.remove(&id) {
        Some(_) => Ok(()),
        None => {
            assert(old(state).accounts@.remove(id) =~= old(state).accounts@);
            Err(ApiError::NotFound)
        },
    }
}

/// What an edit of budget `id` with `input` answers.
pub open spec fn budget_edit(budgets: Map<u128, Budget>, id: u128, input: BudgetInput) -> Result<
    Budget,
    ApiError,
> {
    match lookup(budgets, id) {
        Ok(existing) => Ok(existing.edited(input)),
        Err(e) => Err(e),
    }
}

/// Every budget, in the order of their keys.
pub fn list_budgets(state: &AppState) -> (budgets: Vec<Budget>)
    ensures
        budgets@ == values_in_key_order(state.budgets@),
{
    values_in_order(&state.budgets)
}

/// Stores a new budget made of `payload` under a fresh random id, and
/// returns it; refuses a limit below zero and then stores nothing.
pub fn create_budget(state: &mut AppState, payload: BudgetInput) -> (budget: Result<
    Budget,
    ApiError,
>)
    ensures
        payload.limit_cents < 0 ==> budget is Err && is_invalid_with(
            budget->Err_0,
            negative_limit_reason(),
        ) && final(state).budgets@ == old(state).budgets@,
        payload.limit_cents >= 0 ==> (budget matches Ok(b) && b.name == payload.name
            && b.limit_cents == payload.limit_cents && b.notes == payload.notes),
        payload.limit_cents >= 0 ==> (budget matches Ok(b) && b == Budget::created(b.id, payload)
            && b.id & UUID_V4_MASK == UUID_V4_BITS && final(state).budgets@ == old(
            state,
        ).budgets@.insert(b.id, b)),
        final(state).accounts@ == old(state).accounts@,
        final(state).expenses@ == old(state).expenses@,
{
    if payload.limit_cents < 0 {
        return Err(ApiError::Invalid("limit must be positive".to_owned()));
    }
    let id = new_id();
    let budget = Budget {
        id,
        name: payload.name,
        limit_cents: payload.limit_cents,
        notes: payload.notes,
    };
    state.budgets.insert(id, budget.clone());
    Ok(budget)
}

/// The budget stored under `id`.
pub fn get_budget(state: &AppState, id: u128) -> (budget: Result<Budget, ApiError>)
    ensures
        budget == lookup(state.budgets@, id),
{
    match state.budgets.get(&id) {
        Some(budget) => Ok(budget.clone()),
        None => Err(ApiError::NotFound),
    }
}

/// Replaces the name, limit and notes of the budget under `id`; refuses a
/// limit below zero before it looks the budget up.
pub fn update_budget(state: &mut AppState, id: u128, payload: BudgetInput) -> (budget: Result<
    Budget,
    ApiError,
>)
    ensures
        payload.limit_cents < 0 ==> budget is Err && is_invalid_with(
            budget->Err_0,
            negative_limit_reason(),
        ) && final(state).budgets@ == old(state).budgets@,
        payload.limit_cents >= 0 ==> budget == budget_edit(old(state).budgets@, id, payload)
            && final(state).budgets@ == after_write(old(state).budgets@, id, budget),
        payload.limit_cents >= 0 ==> (old(state).budgets@.contains_key(id) <==> budget is Ok),
        budget matches Ok(b) ==> b.id == old(state).budgets@[id].id && b.name == payload.name
            && b.limit_cents == payload.limit_cents && b.notes == payload.notes,
        final(state).accounts@ == old(state).accounts@,
        final(state).expenses@ == old(state).expenses@,
{
    if payload.limit_cents < 0 {
        return Err(ApiError::Invalid("limit must be positive".to_owned()));
    }
    let existing_id = match state.budgets.get(&id) {
        Some(existing) => existing.id,
        None => return Err(ApiError::NotFound),
    };
    let budget = Budget {
        id: existing_id,
        name: payload.name,
        limit_cents: payload.limit_cents,
        notes: payload.notes,
    };
    state.budgets.insert(id, budget.clone());
    Ok(budget)
}

/// Removes the budget under `id` (its expenses stay).
pub fn delete_budget(state: &mut AppState, id: u128) -> (outcome: Result<(), ApiError>)
    ensures
        outcome == delete_outcome(old(state).budgets@, id),
        outcome is Ok <==> old(state).budgets@.contains_key(id),
        final(state).budgets@ == old(state).budgets@.remove(id),
        final(state).accounts@ == old(state).accounts@,
        final(state).expenses@ == old(state).expenses@,
{
    match state.budgets.remove(&id) {
        Some(_) => Ok(()),
        None => {
            assert(old(state).budgets@.remove(id) =~= old(state).budgets@);
            Err(ApiError::NotFound)
        },
    }
}

/// What an edit of expense `id`, filed under `budget_id`, with `input`
/// answers, once the amount has passed its check: `NotFound` unless the
/// expense exists and is booked on that budget.
pub open spec fn expense_edit(
    expenses: Map<u128, Expense>,
    budget_id: u128,
    id: u128,
    input: ExpenseInput,
) -> Result<Expense, ApiError> {
    match lookup(expenses, id) {
        Ok(existing) => if existing.budget_id == budget_id {
            Ok(existing.edited(input))
        } else {
            Err(ApiError::NotFound)
        },
        Err(e) => Err(e),
    }
}

/// The expense `id` exists and is booked on `budget_id`.
pub open spec fn filed_under(expenses: Map<u128, Expense>, budget_id: u128, id: u128) -> bool {
    expenses.contains_key(id) && expenses[id].budget_id == budget_id
}

/// Stores a new expense made of `payload`, booked on `budget_id`, under a
/// fresh random id, and returns it. It refuses an amount that is not above
/// zero first, then a budget that does not exist; a refusal stores nothing.
pub fn create_expense(state: &mut AppState, budget_id: u128, payload: ExpenseInput) -> (expense: Result<
    Expense,
    ApiError,
>)
    ensures
        payload.amount_cents <= 0 ==> expense is Err && is_invalid_with(
            expense->Err_0,
            non_positive_amount_reason(),
        ) && final(state).expenses@ == old(state).expenses@,
        payload.amount_cents > 0 && !old(state).budgets@.contains_key(budget_id) ==> expense
            == Err::<Expense, ApiError>(ApiError::NotFound) && final(state).expenses@ == old(
            state,
        ).expenses@,
        payload.amount_cents > 0 && old(state).budgets@.contains_key(budget_id) ==> (
        expense matches Ok(e) && e.budget_id == budget_id && e.description
            == payload.description && e.amount_cents == payload.amount_cents),
        payload.amount_cents > 0 && old(state).budgets@.contains_key(budget_id) ==> (
        expense matches Ok(e) && e == Expense::created(e.id, budget_id, payload) && e.id
            & UUID_V4_MASK == UUID_V4_BITS && final(state).expenses@ == old(
            state,
        ).expenses@.insert(e.id, e)),
        final(state).accounts@ == old(state).accounts@,
        final(state).budgets@ == old(state).budgets@,
{
    if payload.amount_cents <= 0 {
        return Err(ApiError::Invalid("amount must be positive".to_owned()));
    }
    if !state.budgets.contains_key(&budget_id) {
        return Err(ApiError::NotFound);
    }
    let id = new_id();
    let expense = Expense {
        id,
        budget_id,
        description: payload.description,
        amount_cents: payload.amount_cents,
    };
    state.expenses.insert(id, expense.clone());
    Ok(expense)
}

/// Replaces the description and amount of expense `id`, which must be
/// booked on `budget_id`. It refuses an amount that is not above zero
/// before it looks the expense up.
pub fn update_expense(
    state: &mut AppState,
    budget_id: u128,
    id: u128,
    payload: ExpenseInput,
) -> (expense: Result<Expense, ApiError>)
    ensures
        payload.amount_cents <= 0 ==> expense is Err && is_invalid_with(
            expense->Err_0,
            non_positive_amount_reason(),
        ) && final(state).expenses@ == old(state).expenses@,
        payload.amount_cents > 0 ==> expense == expense_edit(
            old(state).expenses@,
            budget_id,
            id,
            payload,
        ) && final(state).expenses@ == after_write(old(state).expenses@, id, expense),
        payload.amount_cents > 0 ==> (filed_under(old(state).expenses@, budget_id, id) <==> expense is Ok),
        expense matches Ok(e) ==> e.id == old(state).expenses@[id].id && e.budget_id == budget_id
            && e.description == payload.description && e.amount_cents == payload.amount_cents,
        final(state).accounts@ == old(state).accounts@,
        final(state).budgets@ == old(state).budgets@,
{
    if payload.amount_cents <= 0 {
        return Err(ApiError::Invalid("amount must be positive".to_owned()));
    }
    let (existing_id, existing_budget) = match state.expenses.get(&id) {
        Some(existing) => (existing.id, existing.budget_id),
        None => return Err(ApiError::NotFound),
    };
    if existing_budget != budget_id {
        return Err(ApiError::NotFound);
    }
    let expense = Expense {
        id: existing_id,
        budget_id: existing_budget,
        description: payload.description,
        amount_cents: payload.amount_cents,
    };
    state.expenses.insert(id, expense.clone());
    Ok(expense)
}

/// Removes expense `id`, which must be booked on `budget_id`.
pub fn delete_expense(state: &mut AppState, budget_id: u128, id: u128) -> (outcome: Result<
    (),
    ApiError,
>)
    ensures
        outcome is Ok <==> (old(state).expenses@.contains_key(id) && old(state).expenses@[id].budget_id
            == budget_id),
        filed_under(old(state).expenses@, budget_id, id) ==> outcome == Ok::<(), ApiError>(())
            && final(state).expenses@ == old(state).expenses@.remove(id),
        !filed_under(old(state).expenses@, budget_id, id) ==> outcome == Err::<(), ApiError>(
            ApiError::NotFound,
        ) && final(state).expenses@ == old(state).expenses@,
        final(state).accounts@ == old(state).accounts@,
        final(state).budgets@ == old(state).budgets@,
{
    let existing_budget = match state.expenses.get(&id) {
        Some(existing) => existing.budget_id,
        None => return Err(ApiError::NotFound),
    };
    if existing_budget != budget_id {
        return Err(ApiError::NotFound);
    }
    state.expenses.remove(&id);
    Ok(())
}

/// The summary of budget `id`: what its expenses add up to, and what
/// remains of its limit.
pub fn budget_summary(state: &AppState, id: u128) -> (summary: Result<BudgetSummary, ApiError>)
    requires
        summary_fits_for(*state, id),
    ensures
        !state.budgets@.contains_key(id) ==> summary == Err::<BudgetSummary, ApiError>(
            ApiError::NotFound,
        ),
        state.budgets@.contains_key(id) ==> (summary matches Ok(s) && s.budget
            == state.budgets@[id] && s.spent_cents == total_spent(state.expenses@, id)
            && s.remaining_cents == s.budget.limit_cents - s.spent_cents),
{
    build_budget_summary(state, id)
}

/// The narrowing a client may ask of an expense listing.
#[derive(Debug)]
pub struct ExpenseFilters {
    /// Keep expenses of at least this amount.
    pub min_amount: Option<i64>,
    /// Keep expenses of at most this amount.
    pub max_amount: Option<i64>,
    /// Keep expenses whose description holds this text, ignoring case.
    pub q: Option<String>,
}

/// The query text in lower case, as the listing compares it.
pub open spec fn normalized_query(filters: ExpenseFilters) -> Option<Seq<char>> {
    match filters.q {
        Some(q) => Some(lowercase(q@)),
        None => None,
    }
}

/// Whether `expense` is kept by a listing of `budget_id` with these bounds
/// and this (lower-cased) query, where `lowered_description` is the
/// expense's description in lower case. An absent or empty query keeps
/// every description.
pub open spec fn matches_filters(
    expense: Expense,
    budget_id: u128,
    min_amount: Option<i64>,
    max_amount: Option<i64>,
    query: Option<Seq<char>>,
    lowered_description: Seq<char>,
) -> bool {
    &&& expense.budget_id == budget_id
    &&& match min_amount {
        Some(min) => expense.amount_cents >= min,
        None => true,
    }
    &&& match max_amount {
        Some(max) => expense.amount_cents <= max,
        None => true,
    }
    &&& match query {
        Some(q) => q.len() > 0 ==> occurs_in(q, lowered_description),
        None => true,
    }
}

/// The expenses that a listing of `budget_id` with `filters` keeps.
pub open spec fn listed_by(budget_id: u128, filters: ExpenseFilters) -> spec_fn(Expense) -> bool {
    |e: Expense|
        matches_filters(
            e,
            budget_id,
            filters.min_amount,
            filters.max_amount,
            normalized_query(filters),
            lowercase(e.description@),
        )
}

/// A listing that asks for nothing: no bounds and no query.
pub open spec fn no_filters() -> ExpenseFilters {
    ExpenseFilters { min_amount: None, max_amount: None, q: None }
}

/// The query of `filters` is absent or empty.
pub open spec fn query_is_blank(filters: ExpenseFilters) -> bool {
    filters.q matches Some(q) ==> q@.len() == 0
}

/// `filters` with the query left out.
pub open spec fn without_query(filters: ExpenseFilters) -> ExpenseFilters {
    ExpenseFilters { min_amount: filters.min_amount, max_amount: filters.max_amount, q: None }
}

/// Whether `expense` passes the listing's filters, given the query already
/// in lower case and the expense's description in lower case.
pub fn expense_matches(
    expense: &Expense,
    budget_id: u128,
    min_amount: Option<i64>,
    max_amount: Option<i64>,
    query: &Option<String>,
    lowered_description: &str,
) -> (keep: bool)
    ensures
        keep == matches_filters(
            *expense,
            budget_id,
            min_amount,
            max_amount,
            match query {
                Some(q) => Some(q@),
                None => None,
            },
            lowered_description@,
        ),
        keep <==> (expense.budget_id == budget_id && (min_amount is Some ==> expense.amount_cents
            >= min_amount->0) && (max_amount is Some ==> expense.amount_cents <= max_amount->0) && (
        query is Some && query->0@.len() > 0 ==> exists|start: int, end: int|
            end == start + query->0@.len() && 0 <= start && end <= lowered_description@.len()
                && #[trigger] lowered_description@.subrange(start, end) == query->0@)),
{
    proof {
        if query is Some {
            lemma_occurs_in_subrange(query->0@, lowered_description@);
        }
    }
    if expense.budget_id != budget_id {
        return false;
    }
    match min_amount {
        Some(min) => {
            if expense.amount_cents < min {
                return false;
            }
        },
        None => {},
    }
    match max_amount {
        Some(max) => {
            if expense.amount_cents > max {
                return false;
            }
        },
        None => {},
    }
    match query {
        Some(q) => q.as_str().is_empty() || contains_text(lowered_description, q.as_str()),
        None => true,
    }
}

/// The expenses of budget `budget_id` that pass `filters`, sorted by
/// description; expenses with the same description keep the order of their
/// keys. `NotFound` where there is no such budget.
pub fn list_expenses(state: &AppState, budget_id: u128, filters: &ExpenseFilters) -> (expenses: Result<
    Vec<Expense>,
    ApiError,
>)
    ensures
        !state.budgets@.contains_key(budget_id) ==> expenses == Err::<Vec<Expense>, ApiError>(
            ApiError::NotFound,
        ),
        state.budgets@.contains_key(budget_id) ==> (expenses matches Ok(listed)
            && stably_sorted(
            listed@,
            values_in_key_order(state.expenses@).filter(listed_by(budget_id, *filters)),
        )),
        state.budgets@.contains_key(budget_id) && query_is_blank(*filters) ==> (
        expenses matches Ok(listed) && stably_sorted(
            listed@,
            values_in_key_order(state.expenses@).filter(
                listed_by(budget_id, without_query(*filters)),
            ),
        )),
        state.budgets@.contains_key(budget_id) ==> (expenses matches Ok(listed) && forall|i: int|
            #![trigger listed@[i]]
            0 <= i < listed@.len() ==> {
                &&& exists|k: u128|
                    state.expenses@.contains_key(k) && #[trigger] state.expenses@[k] == listed@[i]
                &&& listed@[i].budget_id == budget_id
                &&& filters.min_amount is Some ==> listed@[i].amount_cents
                    >= filters.min_amount->0
                &&& filters.max_amount is Some ==> listed@[i].amount_cents
                    <= filters.max_amount->0
                &&& filters.q is Some && lowercase(filters.q->0@).len() > 0 ==> exists|
                    start: int,
                    end: int,
                |
                    end == start + lowercase(filters.q->0@).len() && 0 <= start && end
                        <= lowercase(listed@[i].description@).len() && #[trigger] lowercase(
                        listed@[i].description@,
                    ).subrange(start, end) == lowercase(filters.q->0@)
            }),
        state.budgets@.contains_key(budget_id) ==> (expenses matches Ok(listed) && forall|k: u128|
            #![trigger state.expenses@[k]]
            {
                &&& state.expenses@.contains_key(k)
                &&& state.expenses@[k].budget_id == budget_id
                &&& filters.min_amount is Some ==> state.expenses@[k].amount_cents
                    >= filters.min_amount->0
                &&& filters.max_amount is Some ==> state.expenses@[k].amount_cents
                    <= filters.max_amount->0
                &&& filters.q is Some && lowercase(filters.q->0@).len() > 0 ==> exists|
                    start: int,
                    end: int,
                |
                    end == start + lowercase(filters.q->0@).len() && 0 <= start && end
                        <= lowercase(state.expenses@[k].description@).len() && #[trigger] lowercase(
                        state.expenses@[k].description@,
                    ).subrange(start, end) == lowercase(filters.q->0@)
            } ==> listed@.contains(state.expenses@[k])),
{
    if !state.budgets.contains_key(&budget_id) {
        return Err(ApiError::NotFound);
    }
    let normalized: Option<String> = match &filters.q {
        Some(q) => Some(to_lowercase(q.as_str())),
        None => None,
    };
    let entries_iter = state.expenses.iter();
    proof {
        lemma_iter_in_key_order(&state.expenses);
    }
    let ghost entries = spec_btree_map_iter(&state.expenses).remaining();
    let ghost values = values_in_key_order(state.expenses@);
    let ghost keep = listed_by(budget_id, *filters);
    let mut listed: Vec<Expense> = Vec::new();
    proof {
        reveal_with_fuel(vstd::seq::Seq::filter, 1);
        assert(values.take(0).filter(keep) =~= Seq::<Expense>::empty());
        assert(listed@ =~= Seq::<Expense>::empty());
    }
    for kv in it: entries_iter
        invariant
            it.seq() == entries,
            entries.len() == values.len(),
            forall|t: int| 0 <= t < entries.len() ==> *(#[trigger] entries[t]).1 == values[t],
            keep == listed_by(budget_id, *filters),
            match normalized {
                Some(n) => filters.q is Some && n@ == lowercase(filters.q->0@),
                None => filters.q is None,
            },
            stably_sorted(listed@, values.take(it.index()).filter(keep)),
    {
        let (_k, expense) = kv;
        let ghost i = it.index();
        let ghost before = listed@;
        assert(*expense == values[i]);
        assert(values.take(i + 1) =~= values.take(i).push(values[i]));
        let lowered = match &normalized {
            Some(q) => {
                if q.as_str().is_empty() {
                    String::new()
                } else {
                    to_lowercase(expense.description.as_str())
                }
            },
            None => String::new(),
        };
        let kept = expense_matches(
            expense,
            budget_id,
            filters.min_amount,
            filters.max_amount,
            &normalized,
            lowered.as_str(),
        );
        assert(kept == keep(*expense));
        if kept {
            insert_by_description(&mut listed, expense.clone());
        }
        proof {
            let done = values.take(i).filter(keep);
            values.take(i).lemma_filter_push(values[i], keep);
            assert forall|d: Seq<char>| #[trigger]
                with_description(listed@, d) == with_description(
                    values.take(i + 1).filter(keep),
                    d,
                ) by {
                assert(with_description(before, d) == with_description(done, d));
                if kept {
                    assert(values.take(i + 1).filter(keep) == done.push(values[i]));
                    assert(with_description(listed@, d) == with_description(
                        before.push(values[i]),
                        d,
                    ));
                    before.lemma_filter_push(values[i], has_description(d));
                    done.lemma_filter_push(values[i], has_description(d));
                } else {
                    assert(values.take(i + 1).filter(keep) == done);
                    assert(listed@ == before);
                }
            }
        }
    }
    proof {
        assert(values.take(values.len() as int) =~= values);
        if query_is_blank(*filters) {
            if filters.q is Some {
                assert(lowercase(filters.q->0@).len() == 0);
            }
            assert(listed_by(budget_id, *filters) =~= listed_by(
                budget_id,
                without_query(*filters),
            ));
        }
    }
    proof {
        let m = state.expenses@;
        let keys = keys_in_order(m.dom());
        assert forall|i: int| #![trigger listed@[i]] 0 <= i < listed@.len() implies exists|k: u128|
            m.contains_key(k) && #[trigger] m[k] == listed@[i] by {
            law_listing_respects_filters(values, budget_id, *filters, listed@, i);
            let t = choose|t: int| 0 <= t < values.len() && values[t] == listed@[i];
            assert(keys.contains(keys[t]));
            assert(m[keys[t]] == listed@[i]);
        }
        assert forall|i: int| #![trigger listed@[i]] 0 <= i < listed@.len() implies {
            &&& listed@[i].budget_id == budget_id
            &&& filters.min_amount is Some ==> listed@[i].amount_cents >= filters.min_amount->0
            &&& filters.max_amount is Some ==> listed@[i].amount_cents <= filters.max_amount->0
            &&& filters.q is Some && lowercase(filters.q->0@).len() > 0 ==> exists|
                start: int,
                end: int,
            |
                end == start + lowercase(filters.q->0@).len() && 0 <= start && end <= lowercase(
                    listed@[i].description@,
                ).len() && #[trigger] lowercase(listed@[i].description@).subrange(start, end)
                    == lowercase(filters.q->0@)
        } by {
            law_listing_respects_filters(values, budget_id, *filters, listed@, i);
        }
        assert forall|k: u128|
            #![trigger m[k]]
            {
                &&& m.contains_key(k)
                &&& m[k].budget_id == budget_id
                &&& filters.min_amount is Some ==> m[k].amount_cents >= filters.min_amount->0
                &&& filters.max_amount is Some ==> m[k].amount_cents <= filters.max_amount->0
                &&& filters.q is Some && lowercase(filters.q->0@).len() > 0 ==> exists|
                    start: int,
                    end: int,
                |
                    end == start + lowercase(filters.q->0@).len() && 0 <= start && end
                        <= lowercase(m[k].description@).len() && #[trigger] lowercase(
                        m[k].description@,
                    ).subrange(start, end) == lowercase(filters.q->0@)
            } implies listed@.contains(m[k]) by {
            assert(keys.contains(k));
            let t = choose|t: int| 0 <= t < keys.len() && keys[t] == k;
            assert(values[t] == m[k]);
            assert(values.contains(m[k]));
            law_listing_is_complete(values, budget_id, *filters, listed@, m[k]);
        }
    }
    Ok(listed)
}

} // verus!
