use std::collections::BTreeMap;
use vstd::prelude::*;
use vstd::std_specs::btree::spec_btree_map_iter;
use vstd::std_specs::iter::IteratorSpec;

use crate::domain::{Budget, BudgetSummary, Expense};
use crate::error::ApiError;
use crate::state::{lemma_iter_in_key_order, values_in_key_order, AppState};

verus! {

broadcast use {vstd::std_specs::btree::group_btree_axioms, vstd::laws_cmp::group_laws_cmp};

/// What `expense` adds to the spending of `budget_id`: its amount if it is
/// booked there, nothing otherwise.
pub open spec fn charge(expense: Expense, budget_id: u128) -> int {
    if expense.budget_id == budget_id {
        expense.amount_cents as int
    } else {
        0
    }
}

/// What the expenses of `s` that are booked on `budget_id` add up to.
pub open spec fn spent_on(s: Seq<Expense>, budget_id: u128) -> int
    decreases s.len(),
{
    if s.len() == 0 {
        0
    } else {
        spent_on(s.drop_last(), budget_id) + charge(s.last(), budget_id)
    }
}

/// The spending over two sequences one after the other is the sum of their
/// spendings.
pub proof fn lemma_spent_on_concat(a: Seq<Expense>, c: Seq<Expense>, budget_id: u128)
    ensures
        spent_on(a + c, budget_id) == spent_on(a, budget_id) + spent_on(c, budget_id),
    decreases c.len(),
{
    if c.len() == 0 {
        assert(a + c =~= a);
    } else {
        assert((a + c).drop_last() =~= a + c.drop_last());
        lemma_spent_on_concat(a, c.drop_last(), budget_id);
    }
}

/// Taking one expense out of a sequence takes its charge out of the
/// spending.
pub proof fn lemma_spent_on_remove(s: Seq<Expense>, i: int, budget_id: u128)
    requires
        0 <= i < s.len(),
    ensures
        spent_on(s, budget_id) == spent_on(s.remove(i), budget_id) + charge(s[i], budget_id),
{
    let head = s.take(i);
    let tail = s.skip(i + 1);
    assert(s =~= head + seq![s[i]] + tail);
    assert(s.remove(i) =~= head + tail);
    lemma_spent_on_concat(head + seq![s[i]], tail, budget_id);
    lemma_spent_on_concat(head, seq![s[i]], budget_id);
    lemma_spent_on_concat(head, tail, budget_id);
    let one = seq![s[i]];
    assert(one.drop_last() =~= Seq::<Expense>::empty());
    assert(spent_on(one.drop_last(), budget_id) == 0);
    assert(one.last() == s[i]);
    assert(spent_on(one, budget_id) == charge(s[i], budget_id));
}

/// Adding up the amounts of `s` booked on `budget_id`, one after another,
/// never leaves the range of `i64`.
pub open spec fn running_totals_fit(s: Seq<Expense>, budget_id: u128) -> bool {
    forall|n: int|
        0 <= n <= s.len() ==> i64::MIN <= #[trigger] spent_on(s.take(n), budget_id) <= i64::MAX
}

/// What the expenses of `expenses` booked on `budget_id` add up to.
pub open spec fn total_spent(expenses: Map<u128, Expense>, budget_id: u128) -> int {
    spent_on(values_in_key_order(expenses), budget_id)
}

/// The amounts booked on `budget_id` can be added up in key order in `i64`.
pub open spec fn spending_fits(expenses: Map<u128, Expense>, budget_id: u128) -> bool {
    running_totals_fit(values_in_key_order(expenses), budget_id)
}

/// The summary of the budget stored under `budget_id` can be computed in
/// `i64`, if there is such a budget.
pub open spec fn summary_fits_for(state: AppState, budget_id: u128) -> bool {
    state.budgets@.contains_key(budget_id) ==> summary_fits(
        state.budgets@[budget_id],
        state.expenses@,
        budget_id,
    )
}

/// The summary of `budget`, stored under `budget_id`, can be computed in
/// `i64`: the spending booked on `budget_id` adds up, and the limit minus it
/// fits.
pub open spec fn summary_fits(
    budget: Budget,
    expenses: Map<u128, Expense>,
    budget_id: u128,
) -> bool {
    &&& spending_fits(expenses, budget_id)
    &&& i64::MIN <= budget.limit_cents - total_spent(expenses, budget_id) <= i64::MAX
}

/// The total of the amounts booked on `budget_id`, added up in key order;
/// `None` where a running total leaves the range of `i64`.
pub fn spent_cents(expenses: &BTreeMap<u128, Expense>, budget_id: u128) -> (spent: Option<i64>)
    ensures
        spent == (if spending_fits(expenses@, budget_id) {
            Some(total_spent(expenses@, budget_id) as i64)
        } else {
            None
        }),
        spent matches Some(total) ==> total == total_spent(expenses@, budget_id),
{
    let entries_iter = expenses.iter();
    proof {
        lemma_iter_in_key_order(expenses);
    }
    let ghost entries = spec_btree_map_iter(expenses).remaining();
    let ghost values = values_in_key_order(expenses@);
    let mut total: i64 = 0;
    for kv in it: entries_iter
        invariant
            it.seq() == entries,
            entries.len() == values.len(),
            values == values_in_key_order(expenses@),
            forall|t: int| 0 <= t < entries.len() ==> *(#[trigger] entries[t]).1 == values[t],
            total == spent_on(values.take(it.index()), budget_id),
            running_totals_fit(values.take(it.index()), budget_id),
    {
        let (_k, expense) = kv;
        let ghost i = it.index();
        assert(values.take(i + 1).drop_last() =~= values.take(i));
        assert(*expense == values[i]);
        assert(values.take(i + 1).last() == values[i]);
        proof {
            assert forall|n: int| 0 <= n <= i + 1 implies i64::MIN <= #[trigger] spent_on(
                values.take(i + 1).take(n),
                budget_id,
            ) <= i64::MAX || n == i + 1 by {
                if n <= i {
                    assert(values.take(i + 1).take(n) =~= values.take(i).take(n));
                }
            }
        }
        if expense.budget_id == budget_id {
            match total.checked_add(expense.amount_cents) {
                Some(next) => {
                    total = next;
                },
                None => {
                    proof {
                        assert(values.take(i + 1) == values.take(i).push(values[i]));
                        assert(spent_on(values.take(i + 1), budget_id) == total
                            + expense.amount_cents);
                        assert(!running_totals_fit(values, budget_id));
                    }
                    return None;
                },
            }
        }
        proof {
            assert forall|n: int| 0 <= n <= i + 1 implies i64::MIN <= #[trigger] spent_on(
                values.take(i + 1).take(n),
                budget_id,
            ) <= i64::MAX by {
                if n <= i {
                    assert(values.take(i + 1).take(n) =~= values.take(i).take(n));
                } else {
                    assert(values.take(i + 1).take(n) =~= values.take(i + 1));
                }
            }
        }
    }
    assert(values.take(values.len() as int) =~= values);
    Some(total)
}

/// Whether the summary of the budget under `budget_id` can be computed in
/// `i64` (trivially so where there is no such budget).
pub fn summary_in_range(state: &AppState, budget_id: u128) -> (fits: bool)
    ensures
        fits == summary_fits_for(*state, budget_id),
{
    match state.budgets.get(&budget_id) {
        None => true,
        Some(budget) => match spent_cents(&state.expenses, budget_id) {
            None => false,
            Some(spent) => budget.limit_cents.checked_sub(spent).is_some(),
        },
    }
}

/// The summary of the budget under `budget_id`: its spending is the total of
/// the expenses booked on it, and what remains is its limit minus that.
pub fn build_budget_summary(state: &AppState, budget_id: u128) -> (summary: Result<
    BudgetSummary,
    ApiError,
>)
    requires
        summary_fits_for(*state, budget_id),
    ensures
        !state.budgets@.contains_key(budget_id) ==> summary == Err::<BudgetSummary, ApiError>(
            ApiError::NotFound,
        ),
        state.budgets@.contains_key(budget_id) ==> (summary matches Ok(s) && s.budget
            == state.budgets@[budget_id] && s.spent_cents == total_spent(
            state.expenses@,
            budget_id,
        ) && s.remaining_cents == s.budget.limit_cents - s.spent_cents),
{
    let budget = match state.budgets.get(&budget_id) {
        Some(budget) => budget.clone(),
        None => return Err(ApiError::NotFound),
    };
    let spent = match spent_cents(&state.expenses, budget_id) {
        Some(spent) => spent,
        None => vstd::pervasive::unreached(),
    };
    Ok(BudgetSummary::new(budget, spent))
}

} // verus!
