use std::collections::BTreeMap;
use vstd::prelude::*;
use vstd::std_specs::btree::{increasing_seq, spec_btree_map_iter};
use vstd::std_specs::cmp::OrdSpec;
use vstd::std_specs::iter::IteratorSpec;

use crate::domain::{Account, Budget, Expense};

verus! {

broadcast use {vstd::std_specs::btree::group_btree_axioms, vstd::laws_cmp::group_laws_cmp};

/// `keys` lists every key of `dom` once, in increasing order: the order in
/// which a `BTreeMap` keyed by `u128` hands out its entries.
pub open spec fn key_ordered(keys: Seq<u128>, dom: Set<u128>) -> bool {
    &&& forall|i: int, j: int| 0 <= i < j < keys.len() ==> keys[i] < keys[j]
    &&& forall|k: u128| dom.contains(k) <==> keys.contains(k)
}

/// The keys of `dom` in increasing order.
pub open spec fn keys_in_order(dom: Set<u128>) -> Seq<u128> {
    choose|keys: Seq<u128>| key_ordered(keys, dom)
}

/// The values of `m`, in the increasing order of their keys.
pub open spec fn values_in_key_order<V>(m: Map<u128, V>) -> Seq<V> {
    keys_in_order(m.dom()).map_values(|k: u128| m[k])
}

/// Two increasing key sequences over the same keys are the same sequence.
pub proof fn lemma_key_order_unique(a: Seq<u128>, b: Seq<u128>, dom: Set<u128>)
    requires
        key_ordered(a, dom),
        key_ordered(b, dom),
    ensures
        a == b,
    decreases a.len(),
{
    if a.len() == 0 {
        if b.len() > 0 {
            assert(b.contains(b[0]));
            assert(dom.contains(b[0]));
        }
        assert(b =~= a);
    } else {
        assert(a.contains(a[0]));
        assert(b.len() > 0) by {
            assert(dom.contains(a[0]));
        }
        assert(b.contains(b[0]));
        let j = choose|j: int| 0 <= j < b.len() && b[j] == a[0];
        let i = choose|i: int| 0 <= i < a.len() && a[i] == b[0];
        assert(dom.contains(a[0]));
        assert(dom.contains(b[0]));
        assert(a[0] == b[0]) by {
            if i > 0 {
                assert(a[0] < a[i]);
            }
            if j > 0 {
                assert(b[0] < b[j]);
            }
        }
        let rest = dom.remove(a[0]);
        let a1 = a.drop_first();
        let b1 = b.drop_first();
        assert forall|k: u128| rest.contains(k) <==> a1.contains(k) by {
            if a1.contains(k) {
                let t = choose|t: int| 0 <= t < a1.len() && a1[t] == k;
                assert(a[t + 1] == k);
                assert(a.contains(k));
            }
            if rest.contains(k) {
                assert(a.contains(k));
                let t = choose|t: int| 0 <= t < a.len() && a[t] == k;
                assert(t != 0);
                assert(a1[t - 1] == k);
            }
        }
        assert forall|k: u128| rest.contains(k) <==> b1.contains(k) by {
            if b1.contains(k) {
                let t = choose|t: int| 0 <= t < b1.len() && b1[t] == k;
                assert(b[t + 1] == k);
                assert(b.contains(k));
            }
            if rest.contains(k) {
                assert(b.contains(k));
                let t = choose|t: int| 0 <= t < b.len() && b[t] == k;
                assert(t != 0);
                assert(b1[t - 1] == k);
            }
        }
        lemma_key_order_unique(a1, b1, rest);
        assert(a =~= b) by {
            assert forall|t: int| 0 <= t < a.len() implies a[t] == b[t] by {
                if t > 0 {
                    assert(a[t] == a1[t - 1]);
                    assert(b[t] == b1[t - 1]);
                }
            }
        }
    }
}

/// Every finite set of keys can be listed in increasing order.
pub proof fn lemma_key_order_exists(dom: Set<u128>) -> (keys: Seq<u128>)
    requires
        dom.finite(),
    ensures
        key_ordered(keys, dom),
    decreases dom.len(),
{
    if dom.len() == 0 {
        assert forall|k: u128| dom.contains(k) <==> Seq::<u128>::empty().contains(k) by {
            if dom.contains(k) {
                assert(dom.remove(k).len() + 1 == dom.len());
            }
        }
        Seq::empty()
    } else {
        let le = |a: u128, b: u128| a <= b;
        assert(vstd::relations::total_ordering(le));
        dom.find_unique_maximal_ensures(le);
        let top = dom.find_unique_maximal(le);
        let rest = dom.remove(top);
        let smaller = lemma_key_order_exists(rest);
        let keys = smaller.push(top);
        assert forall|i: int, j: int| 0 <= i < j < keys.len() implies keys[i] < keys[j] by {
            if j == keys.len() - 1 {
                assert(smaller.contains(keys[i]));
                assert(rest.contains(keys[i]));
                assert(le(top, keys[i]) ==> le(keys[i], top));
            }
        }
        assert forall|k: u128| dom.contains(k) <==> keys.contains(k) by {
            if dom.contains(k) && k != top {
                assert(rest.contains(k));
                let t = choose|t: int| 0 <= t < smaller.len() && smaller[t] == k;
                assert(keys[t] == k);
            }
            if dom.contains(k) && k == top {
                assert(keys[keys.len() - 1] == k);
            }
            if keys.contains(k) {
                let t = choose|t: int| 0 <= t < keys.len() && keys[t] == k;
                if t < keys.len() - 1 {
                    assert(smaller[t] == k);
                    assert(smaller.contains(k));
                }
            }
        }
        keys
    }
}

/// The keys of a finite set, as `keys_in_order` lists them, are in
/// increasing order and are exactly the set's keys.
pub proof fn lemma_keys_in_order(dom: Set<u128>)
    requires
        dom.finite(),
    ensures
        key_ordered(keys_in_order(dom), dom),
{
    let witness = lemma_key_order_exists(dom);
    assert(key_ordered(witness, dom));
}

/// Taking one key out of an increasing listing lists the remaining keys.
pub proof fn lemma_key_order_remove(keys: Seq<u128>, dom: Set<u128>, i: int)
    requires
        key_ordered(keys, dom),
        0 <= i < keys.len(),
    ensures
        key_ordered(keys.remove(i), dom.remove(keys[i])),
{
    let fewer = keys.remove(i);
    assert forall|a: int, b: int| 0 <= a < b < fewer.len() implies fewer[a] < fewer[b] by {
        let ka = if a < i { a } else { a + 1 };
        let kb = if b < i { b } else { b + 1 };
        assert(fewer[a] == keys[ka]);
        assert(fewer[b] == keys[kb]);
    }
    assert forall|k: u128| dom.remove(keys[i]).contains(k) <==> fewer.contains(k) by {
        if dom.remove(keys[i]).contains(k) {
            assert(keys.contains(k));
            let t = choose|t: int| 0 <= t < keys.len() && keys[t] == k;
            assert(t != i);
            if t < i {
                assert(fewer[t] == k);
            } else {
                assert(fewer[t - 1] == k);
            }
        }
        if fewer.contains(k) {
            let t = choose|t: int| 0 <= t < fewer.len() && fewer[t] == k;
            let kt = if t < i { t } else { t + 1 };
            assert(keys[kt] == k);
            assert(keys.contains(k));
            assert(kt != i);
            if kt < i {
                assert(keys[kt] < keys[i]);
            } else {
                assert(keys[i] < keys[kt]);
            }
        }
    }
}

/// The entries that `BTreeMap::iter` hands out are the map's values in the
/// increasing order of their keys (given the key order that `iter` promises).
pub proof fn lemma_iter_in_key_order<V>(m: &BTreeMap<u128, V>)
    requires
        increasing_seq(
            spec_btree_map_iter(m).remaining().map_values(|kv: (&u128, &V)| *kv.0),
        ),
    ensures
        spec_btree_map_iter(m).remaining().len() == values_in_key_order(m@).len(),
        forall|t: int|
            0 <= t < values_in_key_order(m@).len() ==> *(#[trigger] spec_btree_map_iter(
                m,
            ).remaining()[t]).1 == values_in_key_order(m@)[t],
        key_ordered(keys_in_order(m@.dom()), m@.dom()),
{
    let entries = spec_btree_map_iter(m).remaining();
    let keys = entries.map_values(|kv: (&u128, &V)| *kv.0);
    assert(increasing_seq(keys));
    assert forall|i: int, j: int| 0 <= i < j < keys.len() implies keys[i] < keys[j] by {
        assert(keys[i].cmp_spec(&keys[j]) is Less);
    }
    assert forall|k: u128| m@.dom().contains(k) implies keys.contains(k) by {
        assert(entries.contains((&k, &m@[k])));
        let t = choose|t: int| 0 <= t < entries.len() && entries[t] == (&k, &m@[k]);
        assert(keys[t] == k);
    }
    assert forall|k: u128| keys.contains(k) implies m@.dom().contains(k) by {
        let t = choose|t: int| 0 <= t < keys.len() && keys[t] == k;
        assert(m@.contains_key(*entries[t].0));
    }
    assert(key_ordered(keys, m@.dom()));
    lemma_key_order_unique(keys, keys_in_order(m@.dom()), m@.dom());
}

/// The map's values, cloned, in the increasing order of their keys.
pub fn values_in_order<V: Clone>(m: &BTreeMap<u128, V>) -> (values: Vec<V>)
    requires
        forall|a: V, b: V| #[trigger] cloned::<V>(a, b) ==> b == a,
    ensures
        values@ == values_in_key_order(m@),
{
    let entries_iter = m.iter();
    proof {
        lemma_iter_in_key_order(m);
    }
    let mut values: Vec<V> = Vec::new();
    let ghost entries = spec_btree_map_iter(m).remaining();
    for kv in it: entries_iter
        invariant
            it.seq() == entries,
            entries.len() == values_in_key_order(m@).len(),
            forall|t: int|
                0 <= t < entries.len() ==> *(#[trigger] entries[t]).1 == values_in_key_order(
                    m@,
                )[t],
            forall|a: V, b: V| #[trigger] cloned::<V>(a, b) ==> b == a,
            values@ == values_in_key_order(m@).take(it.index()),
    {
        let (_k, v) = kv;
        let copy = v.clone();
        assert(cloned::<V>(*v, copy));
        values.push(copy);
    }
    assert(values@ =~= values_in_key_order(m@));
    values
}

/// The service's records: accounts, budgets and expenses, each kept by its
/// key.
pub struct AppState {
    pub accounts: BTreeMap<u128, Account>,
    pub budgets: BTreeMap<u128, Budget>,
    pub expenses: BTreeMap<u128, Expense>,
}

impl Default for AppState {
    fn default() -> (state: Self)
        ensures
            state.accounts@ == Map::<u128, Account>::empty(),
            state.budgets@ == Map::<u128, Budget>::empty(),
            state.expenses@ == Map::<u128, Expense>::empty(),
    {
        AppState { accounts: BTreeMap::new(), budgets: BTreeMap::new(), expenses: BTreeMap::new() }
    }
}

} // verus!
