//! Which rows a statement reads: those on which its `WHERE` condition is true.
use crate::query::meaning::{
    condition_truth, items_truth, lemma_just_truth, lemma_single_truth, lemma_with_item_truth,
    truth_and, Truth,
};
use crate::query::statement::conditioned;
use crate::sql::{
    all_of, filtered, just, with_item, ConditionItem, ConditionTree, ExprTree, SelectTree,
};
use vstd::prelude::*;

verus! {

/// What the `WHERE` condition of a statement yields where expressions yield
/// `leaf`.
pub open spec fn where_truth(t: SelectTree, leaf: spec_fn(ExprTree) -> Truth) -> Truth {
    match t.filter {
        None => Truth::True,
        Some(c) => condition_truth(c, leaf),
    }
}

proof fn lemma_merged_items_truth(
    a: Seq<ConditionItem>,
    b: Seq<ConditionItem>,
    leaf: spec_fn(ExprTree) -> Truth,
)
    ensures
        items_truth(a + b, false, leaf) == truth_and(
            items_truth(a, false, leaf),
            items_truth(b, false, leaf),
        ),
    decreases b.len(),
{
    if b.len() == 0 {
        assert(a + b =~= a);
    } else {
        lemma_merged_items_truth(a, b.drop_last(), leaf);
        assert((a + b).drop_last() =~= a + b.drop_last());
        assert((a + b).last() == b.last());
    }
}

/// Adding a condition to a statement leaves the rows on which both hold.
pub proof fn lemma_filtered_truth(
    t: SelectTree,
    c: ConditionTree,
    leaf: spec_fn(ExprTree) -> Truth,
)
    ensures
        where_truth(filtered(t, c), leaf) == truth_and(
            where_truth(t, leaf),
            condition_truth(c, leaf),
        ),
{
    match t.filter {
        None => {},
        Some(f) => {
            if !f.any && !f.negate {
                if !c.any && !c.negate {
                    lemma_merged_items_truth(f.items, c.items, leaf);
                } else {
                    lemma_with_item_truth(f, c, leaf);
                }
            } else {
                lemma_single_truth(f, leaf);
                lemma_with_item_truth(with_item(all_of(Seq::empty()), f), c, leaf);
            }
        },
    }
}

/// A condition is added to a statement wherever that matters: only a disjunction
/// or a negation without items would be left out wrongly.
pub open spec fn is_added(c: ConditionTree) -> bool {
    c.items.len() > 0 || !c.any && !c.negate
}

/// Adding a condition to a statement, unless it has no item, leaves the rows on
/// which both hold.
pub proof fn lemma_conditioned_truth(
    t: SelectTree,
    c: ConditionTree,
    leaf: spec_fn(ExprTree) -> Truth,
)
    requires
        is_added(c),
    ensures
        where_truth(conditioned(t, c), leaf) == truth_and(
            where_truth(t, leaf),
            condition_truth(c, leaf),
        ),
{
    if c.items.len() > 0 {
        lemma_filtered_truth(t, c, leaf);
    }
}

/// What a condition with one expression yields.
pub proof fn lemma_expression_truth(e: ExprTree, leaf: spec_fn(ExprTree) -> Truth)
    ensures
        condition_truth(just(e), leaf) == leaf(e),
        condition_truth(with_item(all_of(Seq::empty()), just(e)), leaf) == leaf(e),
{
    lemma_just_truth(e, leaf);
    lemma_single_truth(just(e), leaf);
}

} // verus!
