use vstd::prelude::*;

use crate::domain::Expense;
use crate::text::{
    lemma_text_le_reflexive, lemma_text_le_total, lemma_text_le_transitive, text_le,
    text_le_exec,
};

verus! {

broadcast use vstd::seq_lib::group_seq_properties;

/// Descriptions never decrease along `s`.
pub open spec fn sorted_by_description(s: Seq<Expense>) -> bool {
    forall|i: int, j: int|
        0 <= i < j < s.len() ==> text_le(s[i].description@, s[j].description@)
}

/// Whether an expense's description is `d`.
pub open spec fn has_description(d: Seq<char>) -> spec_fn(Expense) -> bool {
    |e: Expense| e.description@ == d
}

/// The expenses of `s` whose description is `d`, in their order in `s`.
pub open spec fn with_description(s: Seq<Expense>, d: Seq<char>) -> Seq<Expense> {
    s.filter(has_description(d))
}

/// `sorted` is what a stable sort by description makes of `unsorted`: its
/// descriptions never decrease, and expenses that share a description keep
/// the order that they had in `unsorted`. (Together these also make `sorted`
/// a permutation of `unsorted`.)
pub open spec fn stably_sorted(sorted: Seq<Expense>, unsorted: Seq<Expense>) -> bool {
    &&& sorted_by_description(sorted)
    &&& forall|d: Seq<char>| #[trigger] with_description(sorted, d) == with_description(unsorted, d)
}

/// No expense of `s` has the description `d`, so none is kept.
proof fn lemma_none_with_description(s: Seq<Expense>, d: Seq<char>)
    requires
        forall|i: int| 0 <= i < s.len() ==> s[i].description@ != d,
    ensures
        with_description(s, d) == Seq::<Expense>::empty(),
{
    let p = has_description(d);
    if s.filter(p).len() > 0 {
        s.lemma_filter_pred(p, 0);
        s.lemma_filter_contains_rev(p, s.filter(p)[0]);
    }
    assert(s.filter(p) =~= Seq::<Expense>::empty());
}

/// Inserts `expense` into `sorted` after every expense whose description
/// comes no later than its own, which keeps `sorted` stably sorted.
pub fn insert_by_description(sorted: &mut Vec<Expense>, expense: Expense)
    requires
        sorted_by_description(old(sorted)@),
    ensures
        sorted_by_description(final(sorted)@),
        forall|d: Seq<char>|
            #[trigger] with_description(final(sorted)@, d) == with_description(
                old(sorted)@.push(expense),
                d,
            ),
{
    let mut pos: usize = 0;
    let mut searching = true;
    while searching && pos < sorted.len()
        invariant
            sorted@ == old(sorted)@,
            sorted_by_description(sorted@),
            pos <= sorted.len(),
            forall|j: int| 0 <= j < pos ==> text_le(sorted@[j].description@, expense.description@),
            !searching ==> pos < sorted.len() && !text_le(
                sorted@[pos as int].description@,
                expense.description@,
            ),
        decreases (if searching { sorted.len() - pos + 1 } else { 0 }),
    {
        if text_le_exec(sorted[pos].description.as_str(), expense.description.as_str()) {
            pos = pos + 1;
        } else {
            searching = false;
        }
    }
    let ghost before = sorted@;
    let ghost e = expense;
    sorted.insert(pos, expense);
    proof {
        let after = sorted@;
        assert(after == before.insert(pos as int, e));
        // Every expense from `pos` on has a description strictly after `e`'s.
        assert forall|j: int| pos <= j < before.len() implies text_le(
            e.description@,
            before[j].description@,
        ) && before[j].description@ != e.description@ by {
            lemma_text_le_total(before[pos as int].description@, e.description@);
            if j > pos {
                lemma_text_le_transitive(
                    e.description@,
                    before[pos as int].description@,
                    before[j].description@,
                );
                if before[j].description@ == e.description@ {
                    assert(text_le(before[pos as int].description@, before[j].description@));
                }
            } else {
                if before[j].description@ == e.description@ {
                    lemma_text_le_reflexive(e.description@);
                }
            }
        }
        assert forall|i: int, j: int| 0 <= i < j < after.len() implies text_le(
            after[i].description@,
            after[j].description@,
        ) by {
            if j < pos {
            } else if j == pos {
            } else if i < pos {
                assert(after[j] == before[j - 1]);
                if j - 1 >= pos {
                    lemma_text_le_transitive(
                        before[i].description@,
                        e.description@,
                        before[j - 1].description@,
                    );
                }
            } else if i == pos {
                assert(after[j] == before[j - 1]);
            } else {
                assert(after[i] == before[i - 1]);
                assert(after[j] == before[j - 1]);
            }
        }
        let head = before.take(pos as int);
        let tail = before.skip(pos as int);
        assert(after =~= head + seq![e] + tail);
        assert(before.push(e) =~= head + tail + seq![e]);
        assert forall|d: Seq<char>| #[trigger]
            with_description(after, d) == with_description(before.push(e), d) by {
            let p = has_description(d);
            vstd::seq::Seq::filter_distributes_over_add(head + seq![e], tail, p);
            vstd::seq::Seq::filter_distributes_over_add(head, seq![e], p);
            vstd::seq::Seq::filter_distributes_over_add(head + tail, seq![e], p);
            vstd::seq::Seq::filter_distributes_over_add(head, tail, p);
            if d == e.description@ {
                lemma_none_with_description(tail, d);
                assert(tail.filter(p) =~= Seq::<Expense>::empty());
                assert(with_description(after, d) =~= head.filter(p) + seq![e].filter(p));
                assert(with_description(before.push(e), d) =~= head.filter(p)
                    + seq![e].filter(p));
            } else {
                reveal_with_fuel(vstd::seq::Seq::filter, 2);
                assert(seq![e].filter(p) =~= Seq::<Expense>::empty());
                assert(with_description(after, d) =~= head.filter(p) + tail.filter(p));
                assert(with_description(before.push(e), d) =~= head.filter(p)
                    + tail.filter(p));
            }
        }
    }
}

} // verus!
