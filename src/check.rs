use vstd::prelude::*;
use vstd::std_specs::vec::axiom_vec_index_decreases;

use crate::value::{
    all_homogeneous, all_unique, entries_homogeneous, entries_unique, lemma_all_unique,
    lemma_entries_unique, names_unique, unique_names, entry_models_of, homogeneous, lemma_all_homogeneous,
    lemma_entries_homogeneous, lemma_entry_models_of, lemma_models_of, model_of, models_of, tag_id,
    Value,
};

verus! {

/// Whether every list inside `v`, at any depth, holds elements of its
/// declared type only.
pub fn is_homogeneous(v: &Value) -> (r: bool)
    ensures
        r == homogeneous(model_of(*v)),
    decreases *v,
{
    match v {
        Value::List(e, items) => items_homogeneous(*e, items),
        Value::Compound(es) => entries_are_homogeneous(es),
        _ => true,
    }
}

fn items_homogeneous(e: u8, items: &Vec<Value>) -> (r: bool)
    ensures
        r == all_homogeneous(e, models_of(items@)),
    decreases *items,
{
    let ghost ms = models_of(items@);
    proof {
        lemma_models_of(items@);
        lemma_all_homogeneous(e, ms);
    }
    let mut i: usize = 0;
    while i < items.len()
        invariant
            i <= items@.len(),
            ms == models_of(items@),
            ms.len() == items@.len(),
            forall|j: int| 0 <= j < items@.len() ==> #[trigger] ms[j] == model_of(items@[j]),
            forall|j: int| 0 <= j < i ==> tag_id(#[trigger] ms[j]) == e && homogeneous(ms[j]),
        decreases items@.len() - i,
    {
        proof {
            axiom_vec_index_decreases(*items, i as int);
        }
        if items[i].id() != e || !is_homogeneous(&items[i]) {
            proof {
                lemma_all_homogeneous(e, ms);
                assert(!(tag_id(ms[i as int]) == e && homogeneous(ms[i as int])));
            }
            return false;
        }
        i = i + 1;
    }
    proof {
        lemma_all_homogeneous(e, ms);
    }
    true
}

fn entries_are_homogeneous(es: &Vec<(String, Value)>) -> (r: bool)
    ensures
        r == entries_homogeneous(entry_models_of(es@)),
    decreases *es,
{
    let ghost ms = entry_models_of(es@);
    proof {
        lemma_entry_models_of(es@);
    }
    let mut i: usize = 0;
    while i < es.len()
        invariant
            i <= es@.len(),
            ms == entry_models_of(es@),
            ms.len() == es@.len(),
            forall|j: int|
                0 <= j < es@.len() ==> #[trigger] ms[j] == (es@[j].0@, model_of(es@[j].1)),
            forall|j: int| 0 <= j < i ==> homogeneous(#[trigger] ms[j].1),
        decreases es@.len() - i,
    {
        proof {
            axiom_vec_index_decreases(*es, i as int);
            assert(decreases_to!(es@[i as int] => es@[i as int].1));
        }
        if !is_homogeneous(&es[i].1) {
            proof {
                lemma_entries_homogeneous(ms);
                assert(!homogeneous(ms[i as int].1));
            }
            return false;
        }
        i = i + 1;
    }
    proof {
        lemma_entries_homogeneous(ms);
    }
    true
}

/// Whether every compound inside `v`, at any depth, has distinct names.
pub fn has_unique_names(v: &Value) -> (r: bool)
    ensures
        r == unique_names(model_of(*v)),
    decreases *v,
{
    match v {
        Value::List(_, items) => items_unique(items),
        Value::Compound(es) => names_distinct(es) && entries_are_unique(es),
        _ => true,
    }
}

fn items_unique(items: &Vec<Value>) -> (r: bool)
    ensures
        r == all_unique(models_of(items@)),
    decreases *items,
{
    let ghost ms = models_of(items@);
    proof {
        lemma_models_of(items@);
    }
    let mut i: usize = 0;
    while i < items.len()
        invariant
            i <= items@.len(),
            ms == models_of(items@),
            ms.len() == items@.len(),
            forall|j: int| 0 <= j < items@.len() ==> #[trigger] ms[j] == model_of(items@[j]),
            forall|j: int| 0 <= j < i ==> unique_names(#[trigger] ms[j]),
        decreases items@.len() - i,
    {
        proof {
            axiom_vec_index_decreases(*items, i as int);
        }
        if !has_unique_names(&items[i]) {
            proof {
                lemma_all_unique(ms);
                assert(!unique_names(ms[i as int]));
            }
            return false;
        }
        i = i + 1;
    }
    proof {
        lemma_all_unique(ms);
    }
    true
}

fn names_distinct(es: &Vec<(String, Value)>) -> (r: bool)
    ensures
        r == names_unique(entry_models_of(es@)),
{
    let ghost ms = entry_models_of(es@);
    proof {
        lemma_entry_models_of(es@);
    }
    let n = es.len();
    let mut i: usize = 0;
    while i < n
        invariant
            i <= n,
            n == es@.len(),
            ms == entry_models_of(es@),
            ms.len() == n,
            forall|j: int| 0 <= j < n ==> #[trigger] ms[j] == (es@[j].0@, model_of(es@[j].1)),
            forall|a: int, b: int| 0 <= a < b < n && a < i ==> #[trigger] ms[a].0 != #[trigger] ms[b].0,
        decreases n - i,
    {
        let mut j: usize = i + 1;
        while j < n
            invariant
                i < n,
                i + 1 <= j <= n,
                n == es@.len(),
                ms == entry_models_of(es@),
                ms.len() == n,
                forall|k: int| 0 <= k < n ==> #[trigger] ms[k] == (es@[k].0@, model_of(es@[k].1)),
                forall|a: int, b: int| 0 <= a < b < n && a < i ==> #[trigger] ms[a].0 != #[trigger] ms[b].0,
                forall|b: int| i < b < j ==> ms[i as int].0 != #[trigger] ms[b].0,
            decreases n - j,
        {
            if es[i].0 == es[j].0 {
                assert(ms[i as int].0 == ms[j as int].0);
                return false;
            }
            j = j + 1;
        }
        i = i + 1;
    }
    true
}

fn entries_are_unique(es: &Vec<(String, Value)>) -> (r: bool)
    ensures
        r == entries_unique(entry_models_of(es@)),
    decreases *es,
{
    let ghost ms = entry_models_of(es@);
    proof {
        lemma_entry_models_of(es@);
    }
    let mut i: usize = 0;
    while i < es.len()
        invariant
            i <= es@.len(),
            ms == entry_models_of(es@),
            ms.len() == es@.len(),
            forall|j: int|
                0 <= j < es@.len() ==> #[trigger] ms[j] == (es@[j].0@, model_of(es@[j].1)),
            forall|j: int| 0 <= j < i ==> unique_names(#[trigger] ms[j].1),
        decreases es@.len() - i,
    {
        proof {
            axiom_vec_index_decreases(*es, i as int);
            assert(decreases_to!(es@[i as int] => es@[i as int].1));
        }
        if !has_unique_names(&es[i].1) {
            proof {
                lemma_entries_unique(ms);
                assert(!unique_names(ms[i as int].1));
            }
            return false;
        }
        i = i + 1;
    }
    proof {
        lemma_entries_unique(ms);
    }
    true
}

} // verus!
