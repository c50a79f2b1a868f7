//! Properties that tie the service's operations together, proved over the
//! spec functions that the operations' contracts use.

use vstd::prelude::*;

use crate::domain::{Account, AccountInput, Budget, BudgetInput, Expense, ExpenseInput};
use crate::error::ApiError;
use crate::services::analytics::{charge, lemma_spent_on_remove, total_spent};
use crate::state::{
    keys_in_order, lemma_key_order_remove, lemma_key_order_unique, lemma_keys_in_order,
    values_in_key_order,
};
use crate::routes::handlers::{
    account_edit, after_write, budget_edit, expense_edit, listed_by, lookup, matches_filters,
    no_filters, ExpenseFilters,
};
use crate::text::{lemma_occurs_in_subrange, lowercase};
use crate::services::sorting::{has_description, sorted_by_description, stably_sorted, with_description};
use crate::text::{lemma_text_le_antisymmetric, lemma_text_le_reflexive, text_le};

verus! {

/// A read of a record right after it was written gives back what was
/// written (create and update store with `insert`).
pub proof fn law_read_after_write<V>(records: Map<u128, V>, id: u128, record: V)
    ensures
        lookup(records.insert(id, record), id) == Ok::<V, ApiError>(record),
{
}

/// A read right after an update answers what the update answered; a
/// refused update leaves the records as they were.
pub proof fn law_read_after_update<V>(records: Map<u128, V>, id: u128, outcome: Result<V, ApiError>)
    ensures
        outcome is Ok ==> lookup(after_write(records, id, outcome), id) == outcome,
        outcome is Err ==> after_write(records, id, outcome) == records,
{
}

/// A read right after a delete answers `NotFound`.
pub proof fn law_read_after_delete<V>(records: Map<u128, V>, id: u128)
    ensures
        lookup(records.remove(id), id) == Err::<V, ApiError>(ApiError::NotFound),
{
}

/// Writing or deleting one record leaves every other record as it was.
pub proof fn law_writes_touch_one_record<V>(records: Map<u128, V>, id: u128, other: u128, record: V)
    requires
        other != id,
    ensures
        lookup(records.insert(id, record), other) == lookup(records, other),
        lookup(records.remove(id), other) == lookup(records, other),
{
}

/// An update answers `NotFound` exactly where a read of the same id does,
/// and an update that succeeds keeps the record's id.
pub proof fn law_update_keeps_identity(
    accounts: Map<u128, Account>,
    budgets: Map<u128, Budget>,
    expenses: Map<u128, Expense>,
    id: u128,
    budget_id: u128,
    account_input: AccountInput,
    budget_input: BudgetInput,
    expense_input: ExpenseInput,
)
    ensures
        account_edit(accounts, id, account_input) is Err <==> lookup(accounts, id) is Err,
        account_edit(accounts, id, account_input) matches Ok(a) ==> a.id == accounts[id].id,
        budget_edit(budgets, id, budget_input) is Err <==> lookup(budgets, id) is Err,
        budget_edit(budgets, id, budget_input) matches Ok(b) ==> b.id == budgets[id].id,
        expense_edit(expenses, budget_id, id, expense_input) matches Ok(e) ==> e.id
            == expenses[id].id && e.budget_id == budget_id && expenses[id].budget_id == budget_id,
{
}

/// Every expense that a listing returns is one of the expenses it was drawn
/// from: a stable sort by description only reorders.
pub proof fn law_sorted_listing_draws_from_unsorted(
    sorted: Seq<Expense>,
    unsorted: Seq<Expense>,
    e: Expense,
)
    requires
        stably_sorted(sorted, unsorted),
        sorted.contains(e),
    ensures
        unsorted.contains(e),
{
    let d = e.description@;
    let p = has_description(d);
    let i = choose|i: int| 0 <= i < sorted.len() && sorted[i] == e;
    sorted.lemma_filter_contains(p, i);
    assert(with_description(sorted, d) == with_description(unsorted, d));
    unsorted.lemma_filter_contains_rev(p, e);
}

/// Every expense that a listing keeps passes the listing's filter and is
/// one of the values it was drawn from.
pub proof fn law_listing_keeps_only_matches(
    values: Seq<Expense>,
    keep: spec_fn(Expense) -> bool,
    listed: Seq<Expense>,
    e: Expense,
)
    requires
        stably_sorted(listed, values.filter(keep)),
        listed.contains(e),
    ensures
        keep(e),
        values.contains(e),
{
    law_sorted_listing_draws_from_unsorted(listed, values.filter(keep), e);
    values.lemma_filter_contains_rev(keep, e);
    let i = choose|i: int| 0 <= i < values.filter(keep).len() && values.filter(keep)[i] == e;
    values.lemma_filter_pred(keep, i);
}

/// Filtering keeps every copy of an element that passes the filter.
proof fn lemma_filter_keeps_count<A>(s: Seq<A>, p: spec_fn(A) -> bool, x: A)
    requires
        p(x),
    ensures
        s.filter(p).to_multiset().count(x) == s.to_multiset().count(x),
    decreases s.len(),
{
    broadcast use vstd::seq_lib::group_seq_properties;
    broadcast use vstd::seq_lib::group_to_multiset_ensures;

    if s.len() == 0 {
        reveal_with_fuel(vstd::seq::Seq::filter, 1);
        assert(s.filter(p) =~= s);
    } else {
        let init = s.drop_last();
        lemma_filter_keeps_count(init, p, x);
        assert(s =~= init.push(s.last()));
        init.lemma_filter_push(s.last(), p);
        vstd::seq_lib::to_multiset_build(init, s.last());
        if p(s.last()) {
            vstd::seq_lib::to_multiset_build(init.filter(p), s.last());
        }
    }
}

/// A listing holds exactly the expenses it was drawn from, as many times
/// each: a stable sort by description is a permutation.
pub proof fn law_stable_sort_is_permutation(sorted: Seq<Expense>, unsorted: Seq<Expense>)
    requires
        stably_sorted(sorted, unsorted),
    ensures
        sorted.to_multiset() == unsorted.to_multiset(),
{
    assert forall|x: Expense| sorted.to_multiset().count(x) == unsorted.to_multiset().count(x) by {
        let d = x.description@;
        lemma_filter_keeps_count(sorted, has_description(d), x);
        lemma_filter_keeps_count(unsorted, has_description(d), x);
        assert(with_description(sorted, d) == with_description(unsorted, d));
    }
    assert(sorted.to_multiset() =~= unsorted.to_multiset());
}

/// Two sequences sorted by description, with the same expenses of each
/// description in the same order, are the same sequence.
proof fn lemma_same_groups_same_sequence(a: Seq<Expense>, b: Seq<Expense>)
    requires
        sorted_by_description(a),
        sorted_by_description(b),
        forall|d: Seq<char>| #[trigger] with_description(a, d) == with_description(b, d),
    ensures
        a == b,
    decreases a.len(),
{
    broadcast use vstd::seq_lib::group_seq_properties;

    if a.len() == 0 || b.len() == 0 {
        if b.len() > 0 {
            let d = b[0].description@;
            b.lemma_filter_contains(has_description(d), 0);
            assert(with_description(a, d) == with_description(b, d));
            a.lemma_filter_contains_rev(has_description(d), b[0]);
        }
        if a.len() > 0 {
            let d = a[0].description@;
            a.lemma_filter_contains(has_description(d), 0);
            assert(with_description(a, d) == with_description(b, d));
            b.lemma_filter_contains_rev(has_description(d), a[0]);
        }
        assert(a =~= b);
    } else {
        let da = a[0].description@;
        let db = b[0].description@;
        // The first descriptions agree: each occurs in the other sequence,
        // where nothing comes before the first.
        b.lemma_filter_contains(has_description(db), 0);
        assert(with_description(a, db) == with_description(b, db));
        a.lemma_filter_contains_rev(has_description(db), b[0]);
        let j = choose|j: int| 0 <= j < a.len() && a[j] == b[0];
        if j == 0 {
            lemma_text_le_reflexive(da);
        }
        a.lemma_filter_contains(has_description(da), 0);
        assert(with_description(a, da) == with_description(b, da));
        b.lemma_filter_contains_rev(has_description(da), a[0]);
        let k = choose|k: int| 0 <= k < b.len() && b[k] == a[0];
        if k == 0 {
            lemma_text_le_reflexive(db);
        }
        assert(text_le(da, db));
        assert(text_le(db, da));
        lemma_text_le_antisymmetric(da, db);
        let a1 = a.drop_first();
        let b1 = b.drop_first();
        assert(a =~= seq![a[0]] + a1);
        assert(b =~= seq![b[0]] + b1);
        a1.lemma_filter_prepend(a[0], has_description(da));
        b1.lemma_filter_prepend(b[0], has_description(da));
        assert(with_description(a, da) == with_description(b, da));
        assert(with_description(a, da)[0] == a[0]);
        assert(with_description(b, da)[0] == b[0]);
        assert(with_description(a1, da) =~= with_description(a, da).drop_first());
        assert(with_description(b1, da) =~= with_description(b, da).drop_first());
        assert forall|d: Seq<char>| #[trigger] with_description(a1, d) == with_description(b1, d) by {
            if d != da {
                a1.lemma_filter_prepend(a[0], has_description(d));
                b1.lemma_filter_prepend(b[0], has_description(d));
                assert(with_description(a, d) == with_description(b, d));
                assert(with_description(a, d) =~= with_description(a1, d));
                assert(with_description(b, d) =~= with_description(b1, d));
            }
        }
        lemma_same_groups_same_sequence(a1, b1);
    }
}

/// A listing is fully determined: there is only one stable sort by
/// description of a given sequence of expenses.
pub proof fn law_stable_sort_is_unique(a: Seq<Expense>, b: Seq<Expense>, unsorted: Seq<Expense>)
    requires
        stably_sorted(a, unsorted),
        stably_sorted(b, unsorted),
    ensures
        a == b,
{
    lemma_same_groups_same_sequence(a, b);
}

/// Storing a new expense under a fresh key adds its charge to the spending
/// of every budget: its amount to its own budget, nothing to the others.
pub proof fn law_spending_after_new_expense(
    expenses: Map<u128, Expense>,
    key: u128,
    expense: Expense,
    budget_id: u128,
)
    requires
        expenses.dom().finite(),
        !expenses.contains_key(key),
    ensures
        total_spent(expenses.insert(key, expense), budget_id) == total_spent(expenses, budget_id)
            + if expense.budget_id == budget_id {
            expense.amount_cents as int
        } else {
            0
        },
{
    let after = expenses.insert(key, expense);
    lemma_keys_in_order(after.dom());
    lemma_keys_in_order(expenses.dom());
    let keys = keys_in_order(after.dom());
    assert(keys.contains(key));
    let p = choose|p: int| 0 <= p < keys.len() && keys[p] == key;
    lemma_key_order_remove(keys, after.dom(), p);
    assert(after.dom().remove(key) =~= expenses.dom());
    lemma_key_order_unique(keys.remove(p), keys_in_order(expenses.dom()), expenses.dom());
    let values = values_in_key_order(after);
    assert(values.remove(p) =~= values_in_key_order(expenses)) by {
        assert forall|t: int| 0 <= t < values.remove(p).len() implies values.remove(p)[t]
            == values_in_key_order(expenses)[t] by {
            let kt = if t < p { t } else { t + 1 };
            assert(keys.remove(p)[t] == keys[kt]);
            assert(keys[kt] != key);
        }
    }
    lemma_spent_on_remove(values, p, budget_id);
}

/// Removing a stored expense takes its charge out of the spending of every
/// budget.
pub proof fn law_spending_after_removal(expenses: Map<u128, Expense>, key: u128, budget_id: u128)
    requires
        expenses.dom().finite(),
        expenses.contains_key(key),
    ensures
        total_spent(expenses.remove(key), budget_id) == total_spent(expenses, budget_id) - if expenses[
            key
        ].budget_id == budget_id {
            expenses[key].amount_cents as int
        } else {
            0
        },
{
    let after = expenses.remove(key);
    lemma_keys_in_order(expenses.dom());
    lemma_keys_in_order(after.dom());
    let keys = keys_in_order(expenses.dom());
    assert(keys.contains(key));
    let p = choose|p: int| 0 <= p < keys.len() && keys[p] == key;
    lemma_key_order_remove(keys, expenses.dom(), p);
    assert(expenses.dom().remove(key) =~= after.dom());
    lemma_key_order_unique(keys.remove(p), keys_in_order(after.dom()), after.dom());
    let values = values_in_key_order(expenses);
    assert(values.remove(p) =~= values_in_key_order(after)) by {
        assert forall|t: int| 0 <= t < values.remove(p).len() implies values.remove(p)[t]
            == values_in_key_order(after)[t] by {
            let kt = if t < p { t } else { t + 1 };
            assert(keys.remove(p)[t] == keys[kt]);
            assert(keys[kt] != key);
        }
    }
    lemma_spent_on_remove(values, p, budget_id);
}

/// Replacing a stored expense swaps the old charge for the new one in the
/// spending of every budget.
pub proof fn law_spending_after_replacement(
    expenses: Map<u128, Expense>,
    key: u128,
    expense: Expense,
    budget_id: u128,
)
    requires
        expenses.dom().finite(),
        expenses.contains_key(key),
    ensures
        total_spent(expenses.insert(key, expense), budget_id) == total_spent(expenses, budget_id)
            - (if expenses[key].budget_id == budget_id {
            expenses[key].amount_cents as int
        } else {
            0
        }) + (if expense.budget_id == budget_id {
            expense.amount_cents as int
        } else {
            0
        }),
{
    let after = expenses.insert(key, expense);
    lemma_keys_in_order(expenses.dom());
    assert(after.dom() =~= expenses.dom());
    let keys = keys_in_order(expenses.dom());
    assert(keys.contains(key));
    let p = choose|p: int| 0 <= p < keys.len() && keys[p] == key;
    let before_values = values_in_key_order(expenses);
    let after_values = values_in_key_order(after);
    assert(after_values.remove(p) =~= before_values.remove(p)) by {
        assert forall|t: int| 0 <= t < after_values.remove(p).len() implies after_values.remove(
            p,
        )[t] == before_values.remove(p)[t] by {
            let kt = if t < p { t } else { t + 1 };
            assert(keys[kt] != key);
        }
    }
    lemma_spent_on_remove(before_values, p, budget_id);
    lemma_spent_on_remove(after_values, p, budget_id);
}

/// Filtering never adds copies of an element.
proof fn lemma_filter_count_at_most<A>(s: Seq<A>, p: spec_fn(A) -> bool, x: A)
    ensures
        s.filter(p).to_multiset().count(x) <= s.to_multiset().count(x),
{
    if p(x) {
        lemma_filter_keeps_count(s, p, x);
    } else {
        if s.filter(p).contains(x) {
            let i = choose|i: int| 0 <= i < s.filter(p).len() && s.filter(p)[i] == x;
            s.lemma_filter_pred(p, i);
        }
        vstd::seq_lib::to_multiset_contains(s.filter(p), x);
    }
}

/// Every stored expense is kept under its own id.
pub open spec fn keyed_by_id(expenses: Map<u128, Expense>) -> bool {
    forall|k: u128| #[trigger] expenses.contains_key(k) ==> expenses[k].id == k
}

/// After an expense is created (stored under its own id), an unfiltered
/// listing of its budget holds it exactly once: it is listed, it is listed
/// once, and no other listed expense carries its id.
pub proof fn law_created_expense_is_listed_once(
    expenses: Map<u128, Expense>,
    created: Expense,
    listed: Seq<Expense>,
)
    requires
        expenses.dom().finite(),
        keyed_by_id(expenses),
        stably_sorted(
            listed,
            values_in_key_order(expenses.insert(created.id, created)).filter(
                listed_by(created.budget_id, no_filters()),
            ),
        ),
    ensures
        listed.contains(created),
        listed.to_multiset().count(created) == 1,
        forall|i: int| 0 <= i < listed.len() && listed[i].id == created.id ==> listed[i] == created,
{
    broadcast use vstd::seq_lib::group_to_multiset_ensures;

    let after = expenses.insert(created.id, created);
    let keep = listed_by(created.budget_id, no_filters());
    lemma_keys_in_order(after.dom());
    let keys = keys_in_order(after.dom());
    let values = values_in_key_order(after);
    let base = values.filter(keep);
    // Each value carries the key it is stored under.
    assert forall|t: int| 0 <= t < values.len() implies #[trigger] values[t].id == keys[t] by {
        assert(keys.contains(keys[t]));
        assert(after.contains_key(keys[t]));
        if keys[t] != created.id {
            assert(expenses.contains_key(keys[t]));
        }
    }
    // The created expense is among the values and passes the listing.
    assert(after.dom().contains(created.id));
    let p = choose|p: int| 0 <= p < keys.len() && keys[p] == created.id;
    assert(values[p] == created);
    assert(keep(created));
    values.lemma_filter_contains(keep, p);
    law_stable_sort_is_permutation(listed, base);
    vstd::seq_lib::to_multiset_contains(base, created);
    vstd::seq_lib::to_multiset_contains(listed, created);
    // The values have no duplicates, since their ids are distinct keys.
    assert(values.no_duplicates()) by {
        assert forall|i: int, j: int|
            0 <= i < values.len() && 0 <= j < values.len() && i != j implies values[i]
            != values[j] by {
            assert(values[i].id == keys[i]);
            assert(values[j].id == keys[j]);
            if i < j {
                assert(keys[i] < keys[j]);
            } else {
                assert(keys[j] < keys[i]);
            }
        }
    }
    values.lemma_multiset_has_no_duplicates();
    lemma_filter_count_at_most(values, keep, created);
    vstd::seq_lib::to_multiset_contains(values, created);
    assert forall|i: int| 0 <= i < listed.len() && listed[i].id == created.id implies listed[i]
        == created by {
        let x = listed[i];
        vstd::seq_lib::to_multiset_contains(listed, x);
        vstd::seq_lib::to_multiset_contains(base, x);
        values.lemma_filter_contains_rev(keep, x);
        let t = choose|t: int| 0 <= t < values.len() && values[t] == x;
        assert(keys[t] == created.id);
        assert(keys[t] == keys[p]);
        if t != p {
            if t < p {
                assert(keys[t] < keys[p]);
            } else {
                assert(keys[p] < keys[t]);
            }
        }
    }
}

/// A created record carries the request's fields, under the id it was
/// given (and, for an expense, on the budget it was filed under).
pub proof fn law_created_records_carry_request_fields(
    id: u128,
    budget_id: u128,
    account_input: AccountInput,
    budget_input: BudgetInput,
    expense_input: ExpenseInput,
)
    ensures
        ({
            let a = Account::created(id, account_input);
            a.id == id && a.name == account_input.name && a.owner == account_input.owner
                && a.notes == account_input.notes
        }),
        ({
            let b = Budget::created(id, budget_input);
            b.id == id && b.name == budget_input.name && b.limit_cents == budget_input.limit_cents
                && b.notes == budget_input.notes
        }),
        ({
            let e = Expense::created(id, budget_id, expense_input);
            e.id == id && e.budget_id == budget_id && e.description == expense_input.description
                && e.amount_cents == expense_input.amount_cents
        }),
{
}

/// A successful update answers, and stores, the stored record's id with
/// every field of the request; it succeeds exactly where the record exists
/// (for an expense: and is filed under the budget named).
pub proof fn law_updates_take_request_fields(
    accounts: Map<u128, Account>,
    budgets: Map<u128, Budget>,
    expenses: Map<u128, Expense>,
    id: u128,
    budget_id: u128,
    account_input: AccountInput,
    budget_input: BudgetInput,
    expense_input: ExpenseInput,
)
    ensures
        account_edit(accounts, id, account_input) is Ok <==> accounts.contains_key(id),
        account_edit(accounts, id, account_input) matches Ok(a) ==> a.id == accounts[id].id
            && a.name == account_input.name && a.owner == account_input.owner && a.notes
            == account_input.notes,
        budget_edit(budgets, id, budget_input) is Ok <==> budgets.contains_key(id),
        budget_edit(budgets, id, budget_input) matches Ok(b) ==> b.id == budgets[id].id && b.name
            == budget_input.name && b.limit_cents == budget_input.limit_cents && b.notes
            == budget_input.notes,
        expense_edit(expenses, budget_id, id, expense_input) is Ok <==> (expenses.contains_key(id)
            && expenses[id].budget_id == budget_id),
        expense_edit(expenses, budget_id, id, expense_input) matches Ok(e) ==> e.id
            == expenses[id].id && e.budget_id == budget_id && e.description
            == expense_input.description && e.amount_cents == expense_input.amount_cents,
{
}

/// What the listing's filter keeps, said plainly: an expense of the budget,
/// within each bound that is given, whose lower-cased description holds the
/// lower-cased query as a run of characters wherever the query is not
/// empty.
pub proof fn law_filter_meaning(
    e: Expense,
    budget_id: u128,
    min_amount: Option<i64>,
    max_amount: Option<i64>,
    query: Option<Seq<char>>,
    lowered_description: Seq<char>,
)
    ensures
        matches_filters(e, budget_id, min_amount, max_amount, query, lowered_description) <==> (
        e.budget_id == budget_id && (min_amount is Some ==> e.amount_cents >= min_amount->0) && (
        max_amount is Some ==> e.amount_cents <= max_amount->0) && (query is Some && query->0.len()
            > 0 ==> exists|start: int, end: int|
            end == start + query->0.len() && 0 <= start && end <= lowered_description.len()
                && #[trigger] lowered_description.subrange(start, end) == query->0)),
{
    if query is Some {
        lemma_occurs_in_subrange(query->0, lowered_description);
    }
}

/// Every expense that a listing returns is one of the expenses it was drawn
/// from, is booked on the budget, respects every bound that is given, and
/// holds the (non-empty) query in its description, ignoring case.
pub proof fn law_listing_respects_filters(
    values: Seq<Expense>,
    budget_id: u128,
    filters: ExpenseFilters,
    listed: Seq<Expense>,
    i: int,
)
    requires
        stably_sorted(listed, values.filter(listed_by(budget_id, filters))),
        0 <= i < listed.len(),
    ensures
        values.contains(listed[i]),
        listed[i].budget_id == budget_id,
        filters.min_amount is Some ==> listed[i].amount_cents >= filters.min_amount->0,
        filters.max_amount is Some ==> listed[i].amount_cents <= filters.max_amount->0,
        filters.q is Some && lowercase(filters.q->0@).len() > 0 ==> exists|start: int, end: int|
            end == start + lowercase(filters.q->0@).len() && 0 <= start && end <= lowercase(
                listed[i].description@,
            ).len() && #[trigger] lowercase(listed[i].description@).subrange(start, end)
                == lowercase(filters.q->0@),
{
    let e = listed[i];
    assert(listed.contains(e));
    law_listing_keeps_only_matches(values, listed_by(budget_id, filters), listed, e);
    if filters.q is Some {
        lemma_occurs_in_subrange(lowercase(filters.q->0@), lowercase(e.description@));
    }
}

/// A listing leaves out none of the expenses it was drawn from that are
/// booked on the budget, respect every given bound, and hold the
/// (non-empty) query in their description, ignoring case.
pub proof fn law_listing_is_complete(
    values: Seq<Expense>,
    budget_id: u128,
    filters: ExpenseFilters,
    listed: Seq<Expense>,
    e: Expense,
)
    requires
        stably_sorted(listed, values.filter(listed_by(budget_id, filters))),
        values.contains(e),
        e.budget_id == budget_id,
        filters.min_amount is Some ==> e.amount_cents >= filters.min_amount->0,
        filters.max_amount is Some ==> e.amount_cents <= filters.max_amount->0,
        filters.q is Some && lowercase(filters.q->0@).len() > 0 ==> exists|start: int, end: int|
            end == start + lowercase(filters.q->0@).len() && 0 <= start && end <= lowercase(
                e.description@,
            ).len() && #[trigger] lowercase(e.description@).subrange(start, end) == lowercase(
                filters.q->0@,
            ),
    ensures
        listed.contains(e),
{
    broadcast use vstd::seq_lib::group_to_multiset_ensures;

    let keep = listed_by(budget_id, filters);
    if filters.q is Some {
        lemma_occurs_in_subrange(lowercase(filters.q->0@), lowercase(e.description@));
    }
    assert(keep(e));
    let t = choose|t: int| 0 <= t < values.len() && values[t] == e;
    values.lemma_filter_contains(keep, t);
    law_stable_sort_is_permutation(listed, values.filter(keep));
    vstd::seq_lib::to_multiset_contains(values.filter(keep), e);
    vstd::seq_lib::to_multiset_contains(listed, e);
}

/// With no expenses stored, nothing is spent on any budget.
pub proof fn law_no_spending_without_expenses(budget_id: u128)
    ensures
        total_spent(Map::<u128, Expense>::empty(), budget_id) == 0,
{
    let empty = Map::<u128, Expense>::empty();
    lemma_keys_in_order(empty.dom());
    assert(values_in_key_order(empty).len() == 0) by {
        let keys = keys_in_order(empty.dom());
        if keys.len() > 0 {
            assert(keys.contains(keys[0]));
        }
    }
}

/// The order of texts, said plainly: `a` comes no later than `b` exactly
/// when `a` is a prefix of `b`, or at the first position where they differ
/// `a` has the smaller character.
pub proof fn law_text_order_meaning(a: Seq<char>, b: Seq<char>)
    ensures
        text_le(a, b) <==> ((a.len() <= b.len() && a == b.subrange(0, a.len() as int)) || exists|
            i: int,
        |
            0 <= i < a.len() && i < b.len() && #[trigger] a.subrange(0, i) == b.subrange(0, i)
                && a[i] < b[i]),
    decreases a.len(),
{
    if a.len() == 0 {
        assert(a =~= b.subrange(0, 0));
    } else if b.len() == 0 {
        if exists|i: int|
            0 <= i < a.len() && i < b.len() && #[trigger] a.subrange(0, i) == b.subrange(0, i)
                && a[i] < b[i] {
            let i = choose|i: int|
                0 <= i < a.len() && i < b.len() && #[trigger] a.subrange(0, i) == b.subrange(0, i)
                    && a[i] < b[i];
        }
    } else {
        let a1 = a.drop_first();
        let b1 = b.drop_first();
        law_text_order_meaning(a1, b1);
        if a[0] != b[0] {
            assert(a.subrange(0, 0) =~= b.subrange(0, 0));
            if a.len() <= b.len() && a == b.subrange(0, a.len() as int) {
                assert(a[0] == b.subrange(0, a.len() as int)[0]);
            }
            if exists|i: int|
                0 <= i < a.len() && i < b.len() && #[trigger] a.subrange(0, i) == b.subrange(0, i)
                    && a[i] < b[i] {
                let i = choose|i: int|
                    0 <= i < a.len() && i < b.len() && #[trigger] a.subrange(0, i) == b.subrange(
                        0,
                        i,
                    ) && a[i] < b[i];
                if i > 0 {
                    assert(a.subrange(0, i)[0] == b.subrange(0, i)[0]);
                }
            }
        } else {
            // Prefixes of `a` and `b` correspond to prefixes of their tails.
            if a1.len() <= b1.len() && a1 == b1.subrange(0, a1.len() as int) {
                assert(a =~= b.subrange(0, a.len() as int)) by {
                    assert forall|t: int| 0 <= t < a.len() implies a[t] == b.subrange(
                        0,
                        a.len() as int,
                    )[t] by {
                        if t > 0 {
                            assert(a1[t - 1] == b1.subrange(0, a1.len() as int)[t - 1]);
                        }
                    }
                }
            }
            if a.len() <= b.len() && a == b.subrange(0, a.len() as int) {
                assert(a1 =~= b1.subrange(0, a1.len() as int)) by {
                    assert forall|t: int| 0 <= t < a1.len() implies a1[t] == b1.subrange(
                        0,
                        a1.len() as int,
                    )[t] by {
                        assert(a[t + 1] == b.subrange(0, a.len() as int)[t + 1]);
                    }
                }
            }
            if exists|i: int|
                0 <= i < a1.len() && i < b1.len() && #[trigger] a1.subrange(0, i) == b1.subrange(
                    0,
                    i,
                ) && a1[i] < b1[i] {
                let i = choose|i: int|
                    0 <= i < a1.len() && i < b1.len() && #[trigger] a1.subrange(0, i)
                        == b1.subrange(0, i) && a1[i] < b1[i];
                let pa = a.subrange(0, i + 1);
                let pb = b.subrange(0, i + 1);
                assert(pa =~= pb) by {
                    assert forall|t: int| 0 <= t < i + 1 implies #[trigger] pa[t] == pb[t] by {
                        if t > 0 {
                            assert(a1.subrange(0, i)[t - 1] == b1.subrange(0, i)[t - 1]);
                        }
                    }
                }
                assert(a[i + 1] < b[i + 1]);
            }
            if exists|i: int|
                0 <= i < a.len() && i < b.len() && #[trigger] a.subrange(0, i) == b.subrange(0, i)
                    && a[i] < b[i] {
                let i = choose|i: int|
                    0 <= i < a.len() && i < b.len() && #[trigger] a.subrange(0, i) == b.subrange(
                        0,
                        i,
                    ) && a[i] < b[i];
                assert(i > 0);
                let qa = a1.subrange(0, i - 1);
                let qb = b1.subrange(0, i - 1);
                assert(qa =~= qb) by {
                    assert forall|t: int| 0 <= t < i - 1 implies #[trigger] qa[t] == qb[t] by {
                        assert(a.subrange(0, i)[t + 1] == b.subrange(0, i)[t + 1]);
                    }
                }
                assert(a1[i - 1] < b1[i - 1]);
            }
        }
    }
}

} // verus!
