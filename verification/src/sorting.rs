//! Sorting a list of names into the listing order.

use vstd::multiset::*;
use vstd::prelude::*;
use vstd::relations::*;
use vstd::seq_lib::*;
use crate::name_order::{lemma_name_le_total_order, name_le, name_le_exec, name_order};

verus! {

/// The names stand in ascending listing order.
pub open spec fn names_sorted(s: Seq<Seq<char>>) -> bool {
    forall|i: int, j: int| #![trigger s[i], s[j]] 0 <= i < j < s.len() ==> name_le(s[i], s[j])
}

/// The names stand in descending listing order.
spec fn names_descending(s: Seq<Seq<char>>) -> bool {
    forall|i: int, j: int| #![trigger s[i], s[j]] 0 <= i < j < s.len() ==> name_le(s[j], s[i])
}

/// No name of `low` comes after a name of `high`.
spec fn all_le(low: Seq<Seq<char>>, high: Seq<Seq<char>>) -> bool {
    forall|i: int, j: int|
        #![trigger low[i], high[j]]
        0 <= i < low.len() && 0 <= j < high.len() ==> name_le(low[i], high[j])
}

/// `sorted` is `names` brought into ascending listing order: the same names,
/// each as often as before.
pub open spec fn is_sorting_of(sorted: Seq<Seq<char>>, names: Seq<Seq<char>>) -> bool {
    &&& names_sorted(sorted)
    &&& sorted.to_multiset() == names.to_multiset()
}

/// A list of names has exactly one sorting: two sorted lists that hold the
/// same names equally often are equal.
pub proof fn lemma_sorted_names_unique(x: Seq<Seq<char>>, y: Seq<Seq<char>>)
    requires
        names_sorted(x),
        names_sorted(y),
        x.to_multiset() == y.to_multiset(),
    ensures
        x == y,
{
    lemma_name_le_total_order();
    let leq = name_order();
    assert(total_ordering(leq)) by {
        assert forall|a: Seq<char>, b: Seq<char>| #[trigger] leq(a, b) && #[trigger] leq(b, a) implies a == b by {
            assert(name_le(a, b) && name_le(b, a));
        }
        assert forall|a: Seq<char>, b: Seq<char>, c: Seq<char>|
            #[trigger] leq(a, b) && #[trigger] leq(b, c) implies leq(a, c) by {
            assert(name_le(a, b) && name_le(b, c));
        }
    }
    assert(sorted_by(x, leq));
    assert(sorted_by(y, leq));
    lemma_sorted_unique(x, y, leq);
}

/// The empty list of names holds no name.
proof fn lemma_no_names()
    ensures
        Seq::<Seq<char>>::empty().to_multiset() == Multiset::<Seq<char>>::empty(),
{
    broadcast use {group_to_multiset_ensures, group_multiset_axioms};

    assert(Seq::<Seq<char>>::empty().to_multiset().len() == 0);
    assert(Seq::<Seq<char>>::empty().to_multiset() =~= Multiset::<Seq<char>>::empty());
}

/// One round of merging: the last name of `from` is not below the last name
/// of `other`, so it may move to the top of the descending stack.
proof fn lemma_move_last(from: Seq<Seq<char>>, other: Seq<Seq<char>>, stack: Seq<Seq<char>>)
    requires
        from.len() > 0,
        names_sorted(from),
        names_sorted(other),
        names_descending(stack),
        all_le(from, stack),
        all_le(other, stack),
        other.len() > 0 ==> name_le(other.last(), from.last()),
    ensures
        names_sorted(from.drop_last()),
        names_descending(stack.push(from.last())),
        all_le(from.drop_last(), stack.push(from.last())),
        all_le(other, stack.push(from.last())),
        from.to_multiset() == from.drop_last().to_multiset().insert(from.last()),
        stack.push(from.last()).to_multiset() == stack.to_multiset().insert(from.last()),
{
    lemma_name_le_total_order();
    let top = from.last();
    let rest = from.drop_last();
    let grown = stack.push(top);
    assert forall|i: int, j: int| 0 <= i < j < grown.len() implies name_le(
        #[trigger] grown[j],
        #[trigger] grown[i],
    ) by {
        if j == stack.len() {
            assert(name_le(from[from.len() - 1], stack[i]));
        } else {
            assert(name_le(stack[j], stack[i]));
        }
    }
    assert forall|i: int, j: int| 0 <= i < rest.len() && 0 <= j < grown.len() implies name_le(
        #[trigger] rest[i],
        #[trigger] grown[j],
    ) by {
        if j == stack.len() {
            assert(name_le(from[i], from[from.len() - 1]));
        } else {
            assert(name_le(from[i], stack[j]));
        }
    }
    assert forall|i: int, j: int| 0 <= i < other.len() && 0 <= j < grown.len() implies name_le(
        #[trigger] other[i],
        #[trigger] grown[j],
    ) by {
        if j == stack.len() {
            let last: int = other.len() - 1;
            assert(name_le(other[last], top));
            if i < last {
                assert(name_le(other[i], other[last]));
            }
        } else {
            assert(name_le(other[i], stack[j]));
        }
    }
    assert(from =~= rest.push(top));
    to_multiset_build(rest, top);
    to_multiset_build(stack, top);
}

/// One round of unstacking: the top of a descending stack, which no sorted
/// name so far exceeds, extends the sorted list.
proof fn lemma_unstack(merged: Seq<Seq<char>>, stack: Seq<Seq<char>>)
    requires
        stack.len() > 0,
        names_sorted(merged),
        names_descending(stack),
        all_le(merged, stack),
    ensures
        names_sorted(merged.push(stack.last())),
        names_descending(stack.drop_last()),
        all_le(merged.push(stack.last()), stack.drop_last()),
        stack.to_multiset() == stack.drop_last().to_multiset().insert(stack.last()),
        merged.push(stack.last()).to_multiset() == merged.to_multiset().insert(stack.last()),
{
    let top = stack.last();
    let rest = stack.drop_last();
    let grown = merged.push(top);
    assert forall|i: int, j: int| 0 <= i < j < grown.len() implies name_le(
        #[trigger] grown[i],
        #[trigger] grown[j],
    ) by {
        if j == merged.len() {
            assert(name_le(merged[i], stack[stack.len() - 1]));
        } else {
            assert(name_le(merged[i], merged[j]));
        }
    }
    assert forall|i: int, j: int| 0 <= i < j < rest.len() implies name_le(
        #[trigger] rest[j],
        #[trigger] rest[i],
    ) by {
        assert(name_le(stack[j], stack[i]));
    }
    assert forall|i: int, j: int| 0 <= i < grown.len() && 0 <= j < rest.len() implies name_le(
        #[trigger] grown[i],
        #[trigger] rest[j],
    ) by {
        if i == merged.len() {
            assert(name_le(stack[stack.len() - 1], stack[j]));
        } else {
            assert(name_le(merged[i], stack[j]));
        }
    }
    assert(stack =~= rest.push(top));
    to_multiset_build(rest, top);
    to_multiset_build(merged, top);
}

/// Merges two sorted lists of names into one.
fn merge_sorted(left: Vec<String>, right: Vec<String>) -> (merged: Vec<String>)
    requires
        names_sorted(left.deep_view()),
        names_sorted(right.deep_view()),
    ensures
        names_sorted(merged.deep_view()),
        merged.deep_view().to_multiset() == left.deep_view().to_multiset().add(
            right.deep_view().to_multiset(),
        ),
{
    let mut left = left;
    let mut right = right;
    let ghost all = left.deep_view().to_multiset().add(right.deep_view().to_multiset());
    // Largest names first: each round moves the larger of the two last names.
    let mut stack: Vec<String> = Vec::new();
    proof {
        lemma_no_names();
        assert(stack.deep_view() =~= Seq::<Seq<char>>::empty());
        assert(left.deep_view().to_multiset().add(right.deep_view().to_multiset()).add(
            stack.deep_view().to_multiset(),
        ) =~= all);
    }
    while left.len() > 0 || right.len() > 0
        invariant
            names_sorted(left.deep_view()),
            names_sorted(right.deep_view()),
            names_descending(stack.deep_view()),
            all_le(left.deep_view(), stack.deep_view()),
            all_le(right.deep_view(), stack.deep_view()),
            left.deep_view().to_multiset().add(right.deep_view().to_multiset()).add(
                stack.deep_view().to_multiset(),
            ) == all,
        decreases left.len() + right.len(),
    {
        let from_left = if right.len() == 0 {
            true
        } else if left.len() == 0 {
            false
        } else {
            !name_le_exec(left[left.len() - 1].as_str(), right[right.len() - 1].as_str())
        };
        let ghost old_left = left.deep_view();
        let ghost old_right = right.deep_view();
        let ghost old_stack = stack.deep_view();
        if from_left {
            proof {
                lemma_name_le_total_order();
                lemma_move_last(old_left, old_right, old_stack);
            }
            let name = left.pop().unwrap();
            stack.push(name);
            proof {
                assert(left.deep_view() =~= old_left.drop_last());
                assert(stack.deep_view() =~= old_stack.push(old_left.last()));
                assert(left.deep_view().to_multiset().add(right.deep_view().to_multiset()).add(
                    stack.deep_view().to_multiset(),
                ) =~= all);
            }
        } else {
            proof {
                lemma_move_last(old_right, old_left, old_stack);
            }
            let name = right.pop().unwrap();
            stack.push(name);
            proof {
                assert(right.deep_view() =~= old_right.drop_last());
                assert(stack.deep_view() =~= old_stack.push(old_right.last()));
                assert(left.deep_view().to_multiset().add(right.deep_view().to_multiset()).add(
                    stack.deep_view().to_multiset(),
                ) =~= all);
            }
        }
    }
    let mut merged: Vec<String> = Vec::new();
    proof {
        assert(left.deep_view() =~= Seq::<Seq<char>>::empty());
        assert(right.deep_view() =~= Seq::<Seq<char>>::empty());
        assert(merged.deep_view() =~= Seq::<Seq<char>>::empty());
        assert(merged.deep_view().to_multiset().add(stack.deep_view().to_multiset()) =~= all);
    }
    while stack.len() > 0
        invariant
            names_sorted(merged.deep_view()),
            names_descending(stack.deep_view()),
            all_le(merged.deep_view(), stack.deep_view()),
            merged.deep_view().to_multiset().add(stack.deep_view().to_multiset()) == all,
        decreases stack.len(),
    {
        let ghost old_merged = merged.deep_view();
        let ghost old_stack = stack.deep_view();
        proof {
            lemma_unstack(old_merged, old_stack);
        }
        let name = stack.pop().unwrap();
        merged.push(name);
        proof {
            assert(stack.deep_view() =~= old_stack.drop_last());
            assert(merged.deep_view() =~= old_merged.push(old_stack.last()));
            assert(merged.deep_view().to_multiset().add(stack.deep_view().to_multiset()) =~= all);
        }
    }
    proof {
        assert(stack.deep_view() =~= Seq::<Seq<char>>::empty());
        assert(merged.deep_view().to_multiset() =~= all);
    }
    merged
}

/// Sorts names into ascending listing order by merge sort.
///
/// The result holds the same names as the input, each as often, and by
/// [`lemma_sorted_names_unique`] it is the only list that does.
pub fn sort_names(names: Vec<String>) -> (sorted: Vec<String>)
    ensures
        is_sorting_of(sorted.deep_view(), names.deep_view()),
    decreases names.len(),
{
    let mut left = names;
    let n: usize = left.len();
    if n <= 1 {
        return left;
    }
    let right = left.split_off(n / 2);
    proof {
        assert(names.deep_view() =~= left.deep_view() + right.deep_view());
        lemma_multiset_commutative(left.deep_view(), right.deep_view());
    }
    let left = sort_names(left);
    let right = sort_names(right);
    merge_sorted(left, right)
}

} // verus!
