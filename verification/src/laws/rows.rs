//! What happens to single rows: their gradients, their place in a bag, and the leaf they are in.
use crate::fold;
use crate::kernels::copy_subrow;
use crate::kernels::data_partition;
use crate::kernels::leaf_map;
use crate::kernels::leaf_map::LeafMapStep;
use crate::kernels::objective_binary;
use crate::laws::routing;
use crate::laws::sums;
use crate::number::Real64;
use crate::stable;
use vstd::prelude::*;

verus! {

/// The row at a position of the bag. The rows whose draw is below the fraction come first, in
/// ascending order; the others follow in descending order.
pub proof fn bag_sets_drawn_rows_first(draws: Seq<Real64>, num_data: int, fraction: Real64, p: int, q: int)
    requires
        num_data <= i32::MAX,
        0 <= p < q < num_data,
    ensures
        ({
            let marks = copy_subrow::in_bag(draws, num_data, fraction);
            let bag = copy_subrow::bag_layout(marks);
            let inside = marks.to_multiset().count(true);
            &&& bag.len() == num_data
            &&& 0 <= bag[p] < num_data
            &&& p < inside <==> fraction.spec_above(draws[bag[p] as int])
            &&& q < inside <==> fraction.spec_above(draws[bag[q] as int])
            &&& q < inside ==> bag[p] < bag[q]
            &&& p >= inside ==> bag[p] > bag[q]
        }),
{
    let marks = copy_subrow::in_bag(draws, num_data, fraction);
    let rows = copy_subrow::row_numbers(num_data);
    routing::tally_is_the_count(marks, true);
    stable::tallies_sum(marks);
    stable::chosen_len(rows, marks, true);
    stable::chosen_len(rows, marks, false);
    let inside = stable::tally(marks, true) as int;
    bag_position(marks, p);
    bag_position(marks, q);
    if q < inside {
        sides_ascend(marks, p, q, true);
    } else if p >= inside {
        sides_ascend(marks, num_data - 1 - q, num_data - 1 - p, false);
    }
}

proof fn bag_position(marks: Seq<bool>, p: int)
    requires
        marks.len() <= i32::MAX,
        0 <= p < marks.len(),
    ensures
        ({
            let rows = copy_subrow::row_numbers(marks.len() as int);
            let bag = copy_subrow::bag_layout(marks);
            let inside = stable::tally(marks, true) as int;
            &&& bag.len() == marks.len()
            &&& 0 <= bag[p] < marks.len()
            &&& marks[bag[p] as int] == (p < inside)
            &&& p < inside ==> bag[p] == stable::chosen(rows, marks, true)[p]
            &&& p >= inside ==> bag[p] == stable::chosen(rows, marks, false)[marks.len() - 1 - p]
        }),
{
    let rows = copy_subrow::row_numbers(marks.len() as int);
    stable::tallies_sum(marks);
    stable::chosen_len(rows, marks, true);
    stable::chosen_len(rows, marks, false);
    let inside = stable::tally(marks, true) as int;
    if p < inside {
        let i = stable::sides_hold_their_items(rows, marks, p, true);
    } else {
        let i = stable::sides_hold_their_items(rows, marks, marks.len() - 1 - p, false);
    }
}

proof fn sides_ascend(marks: Seq<bool>, p: int, q: int, want: bool)
    requires
        marks.len() <= i32::MAX,
        0 <= p < q < stable::tally(marks, want),
    ensures
        ({
            let side = stable::chosen(copy_subrow::row_numbers(marks.len() as int), marks, want);
            side[p] < side[q]
        }),
{
    let rows = copy_subrow::row_numbers(marks.len() as int);
    let i = stable::rank_is_reached(marks, p, want);
    let j = stable::rank_is_reached(marks, q, want);
    stable::chosen_at(rows, marks, i, want);
    stable::chosen_at(rows, marks, j, want);
    if j <= i {
        stable::tally_monotone(marks, j, i, want);
    }
}

/// The rows are drawn in blocks of 1024, and the last block is not empty.
pub proof fn draws_come_in_blocks(num_data: i32)
    ensures
        num_data <= 0 ==> copy_subrow::bagging_blocks(num_data) == 0,
        num_data > 0 ==> (copy_subrow::bagging_blocks(num_data) - 1) * 1024 < num_data
            <= copy_subrow::bagging_blocks(num_data) * 1024,
{
}

/// A copy of some rows holds at each position the entry of the row that is named there.
pub proof fn copied_rows_keep_their_entries<T>(column: Seq<T>, used: Seq<i32>, i: int)
    requires
        0 <= i < used.len(),
        0 <= used[i] < column.len(),
    ensures
        copy_subrow::subrows(column, used).len() == used.len(),
        copy_subrow::subrows(column, used)[i] == column[used[i] as int],
{
}

/// A step of a leaf map can be carried out.
pub open spec fn step_fits(step: LeafMapStep<'_>, num_data: int) -> bool {
    &&& step.data_indices@.len() == step.to_left@.len()
    &&& step.data_indices@.no_duplicates()
    &&& forall|i: int| 0 <= i < step.data_indices@.len() ==> #[trigger] step.data_indices@[i] < num_data
    &&& step.left_leaf != -1
    &&& step.right_leaf != -1
}

/// After a sequence of splits a row is in the leaf that the last split of the row sent it to.
pub proof fn last_split_of_a_row_decides(
    init: Seq<i32>,
    steps: Seq<LeafMapStep<'_>>,
    n: int,
    k: int,
    i: int,
)
    requires
        0 <= k < n <= steps.len(),
        forall|s: int| 0 <= s < n ==> step_fits(#[trigger] steps[s], init.len() as int),
        0 <= i < steps[k].data_indices@.len(),
        forall|s: int, j: int|
            k < s < n && 0 <= j < steps[s].data_indices@.len() ==> #[trigger] steps[s].data_indices@[j]
                != steps[k].data_indices@[i],
    ensures
        leaf_map::map_after(init, steps, n).len() == init.len(),
        leaf_map::map_after(init, steps, n)[steps[k].data_indices@[i] as int] == (if steps[k].to_left@[i] == 1 {
            steps[k].left_leaf
        } else {
            steps[k].right_leaf
        }),
    decreases n,
{
    let row = steps[k].data_indices@[i] as int;
    let base = leaf_map::map_after(init, steps, n - 1);
    map_keeps_its_length(init, steps, n - 1);
    map_keeps_its_length(init, steps, n);
    let step = steps[n - 1];
    assert(step_fits(step, init.len() as int));
    assert(step_fits(steps[k], init.len() as int));
    assert(steps[k].data_indices@[i] < init.len());
    let blank = Seq::new(init.len(), |r: int| -1i32);
    data_partition::leaf_writes_by_row(blank, step.data_indices@, step.to_left@, step.left_leaf, step.right_leaf);
    if k < n - 1 {
        last_split_of_a_row_decides(init, steps, n - 1, k, i);
        assert forall|j: int| 0 <= j < step.data_indices@.len() implies #[trigger] step.data_indices@[j] != row by {
            assert(steps[n - 1].data_indices@[j] != steps[k].data_indices@[i]);
        }
        assert(data_partition::leaf_writes(
            blank,
            step.data_indices@,
            step.to_left@,
            step.left_leaf,
            step.right_leaf,
        )[row] == -1);
    } else {
        assert(step.data_indices@[i] as int == row);
    }
}

proof fn map_keeps_its_length(init: Seq<i32>, steps: Seq<LeafMapStep<'_>>, n: int)
    ensures
        leaf_map::map_after(init, steps, n).len() == init.len(),
    decreases n,
{
    if n > 0 {
        map_keeps_its_length(init, steps, n - 1);
    }
}

/// A row that no split names stays in the leaf that it started in.
pub proof fn unsplit_rows_stay(init: Seq<i32>, steps: Seq<LeafMapStep<'_>>, n: int, row: int)
    requires
        0 <= n <= steps.len(),
        0 <= row < init.len(),
        forall|s: int| 0 <= s < n ==> step_fits(#[trigger] steps[s], init.len() as int),
        forall|s: int, j: int|
            0 <= s < n && 0 <= j < steps[s].data_indices@.len() ==> #[trigger] steps[s].data_indices@[j] != row,
    ensures
        leaf_map::map_after(init, steps, n)[row] == init[row],
    decreases n,
{
    if n > 0 {
        unsplit_rows_stay(init, steps, n - 1, row);
        map_keeps_its_length(init, steps, n - 1);
        let step = steps[n - 1];
        assert(step_fits(step, init.len() as int));
        let blank = Seq::new(init.len(), |r: int| -1i32);
        data_partition::leaf_writes_by_row(
            blank,
            step.data_indices@,
            step.to_left@,
            step.left_leaf,
            step.right_leaf,
        );
        assert forall|j: int| 0 <= j < step.data_indices@.len() implies #[trigger] step.data_indices@[j] != row by {
            assert(steps[n - 1].data_indices@[j] != row);
        }
        assert(data_partition::leaf_writes(
            blank,
            step.data_indices@,
            step.to_left@,
            step.left_leaf,
            step.right_leaf,
        )[row] == -1);
    }
}

/// The gradient of a row is its response, and the hessian the curvature at the response, each times
/// the weight of the row's class and then times the weight of the row. Of the two class weights the
/// first is that of the negative labels.
pub proof fn gradient_is_the_weighted_response<C, R: Fn(C, bool) -> C, H: Fn(C) -> C, M: Fn(C, C) -> C>(
    respond: R,
    curve: H,
    times: M,
    score: C,
    label: Real64,
    class_weights: (C, C),
    weight: C,
    g: C,
    h: C,
    response: spec_fn(C, bool) -> C,
    curvature: spec_fn(C) -> C,
    product: spec_fn(C, C) -> C,
)
    requires
        objective_binary::is_row_gradient(
            respond,
            curve,
            times,
            score,
            objective_binary::is_positive(label),
            objective_binary::class_weight(objective_binary::is_positive(label), Some(class_weights)),
            Some(weight),
            g,
            h,
        ),
        forall|c: C, positive: bool, r: C| #[trigger]
            call_ensures(respond, (c, positive), r) ==> r == response(c, positive),
        forall|c: C, r: C| #[trigger] call_ensures(curve, (c,), r) ==> r == curvature(c),
        forall|a: C, b: C, r: C| #[trigger] call_ensures(times, (a, b), r) ==> r == product(a, b),
    ensures
        label.spec_above(Real64::spec_zero()) ==> g == product(product(response(score, true), class_weights.1), weight)
            && h == product(product(curvature(response(score, true)), class_weights.1), weight),
        !label.spec_above(Real64::spec_zero()) ==> g == product(
            product(response(score, false), class_weights.0),
            weight,
        ) && h == product(product(curvature(response(score, false)), class_weights.0), weight),
{
}

/// Without weights the gradient of a row is its response, and the hessian the curvature at it.
pub proof fn unweighted_gradient_is_the_response<C, R: Fn(C, bool) -> C, H: Fn(C) -> C, M: Fn(C, C) -> C>(
    respond: R,
    curve: H,
    times: M,
    score: C,
    label: Real64,
    g: C,
    h: C,
)
    requires
        objective_binary::is_row_gradient(
            respond,
            curve,
            times,
            score,
            objective_binary::is_positive(label),
            objective_binary::class_weight::<C>(objective_binary::is_positive(label), None),
            None,
            g,
            h,
        ),
    ensures
        label.spec_above(Real64::spec_zero()) ==> call_ensures(respond, (score, true), g),
        !label.spec_above(Real64::spec_zero()) ==> call_ensures(respond, (score, false), g),
        call_ensures(curve, (g,), h),
{
}

/// The sum of the weights of the rows with a positive label.
pub open spec fn positive_weight<C>(labels: Seq<Real64>, weights: Seq<C>, amount: spec_fn(C) -> int) -> int
    decreases labels.len(),
{
    if labels.len() == 0 {
        0
    } else {
        positive_weight(labels.drop_last(), weights.drop_last(), amount) + (if labels.last().spec_above(
            Real64::spec_zero(),
        ) {
            amount(weights.last())
        } else {
            0
        })
    }
}

proof fn prior_terms_total<C>(
    labels: Seq<Real64>,
    weights: Seq<C>,
    one: C,
    zero: C,
    amount: spec_fn(C) -> int,
)
    requires
        labels.len() == weights.len(),
        amount(zero) == 0,
    ensures
        sums::total(objective_binary::prior_terms(labels, Some(weights), one, zero), amount) == positive_weight(
            labels,
            weights,
            amount,
        ),
    decreases labels.len(),
{
    if labels.len() > 0 {
        prior_terms_total(labels.drop_last(), weights.drop_last(), one, zero, amount);
        let terms = objective_binary::prior_terms(labels, Some(weights), one, zero);
        assert(terms.drop_last() =~= objective_binary::prior_terms(
            labels.drop_last(),
            Some(weights.drop_last()),
            one,
            zero,
        ));
    }
}

/// The starting score is made of the weight of the positive rows and the weight of all rows.
pub proof fn starting_score_is_of_the_positive_weight<C, A: Fn(C, C) -> C, F: Fn(C, C) -> C>(
    plus: A,
    finish: F,
    one: C,
    zero: C,
    rows: C,
    labels: Seq<Real64>,
    weights: Seq<C>,
    score: C,
    amount: spec_fn(C) -> int,
) -> (parts: (C, C))
    requires
        objective_binary::is_starting_score(plus, finish, one, zero, rows, labels, Some(weights), score),
        sums::adds(plus, amount, amount),
        amount(zero) == 0,
        labels.len() == weights.len(),
    ensures
        amount(parts.0) == positive_weight(labels, weights, amount),
        amount(parts.1) == sums::total(weights, amount),
        call_ensures(finish, parts, score),
{
    let (positive, total) = choose|positive: C, total: C|
        {
            &&& fold::folds_to(
                plus,
                zero,
                objective_binary::prior_terms(labels, Some(weights), one, zero),
                positive,
            )
            &&& fold::folds_to(plus, zero, weights, total)
            &&& #[trigger] call_ensures(finish, (positive, total), score)
        };
    sums::fold_adds_the_total(
        plus,
        zero,
        objective_binary::prior_terms(labels, Some(weights), one, zero),
        positive,
        amount,
        amount,
    );
    sums::fold_adds_the_total(plus, zero, weights, total, amount, amount);
    prior_terms_total(labels, weights, one, zero, amount);
    (positive, total)
}

/// The number of rows with a positive label.
pub open spec fn positive_rows(labels: Seq<Real64>) -> int
    decreases labels.len(),
{
    if labels.len() == 0 {
        0
    } else {
        positive_rows(labels.drop_last()) + (if labels.last().spec_above(Real64::spec_zero()) {
            1int
        } else {
            0
        })
    }
}

proof fn unweighted_terms_total<C>(labels: Seq<Real64>, one: C, zero: C, amount: spec_fn(C) -> int)
    requires
        amount(zero) == 0,
        amount(one) == 1,
    ensures
        sums::total(objective_binary::prior_terms::<C>(labels, None, one, zero), amount) == positive_rows(labels),
    decreases labels.len(),
{
    if labels.len() > 0 {
        unweighted_terms_total(labels.drop_last(), one, zero, amount);
        let terms = objective_binary::prior_terms::<C>(labels, None, one, zero);
        assert(terms.drop_last() =~= objective_binary::prior_terms::<C>(labels.drop_last(), None, one, zero));
    }
}

/// Without weights the starting score is made of the number of positive rows and the number of rows.
pub proof fn starting_score_is_of_the_positive_rows<C, A: Fn(C, C) -> C, F: Fn(C, C) -> C>(
    plus: A,
    finish: F,
    one: C,
    zero: C,
    rows: C,
    labels: Seq<Real64>,
    score: C,
    amount: spec_fn(C) -> int,
) -> (positive: C)
    requires
        objective_binary::is_starting_score(plus, finish, one, zero, rows, labels, None, score),
        sums::adds(plus, amount, amount),
        amount(zero) == 0,
        amount(one) == 1,
    ensures
        amount(positive) == positive_rows(labels),
        call_ensures(finish, (positive, rows), score),
{
    let terms = objective_binary::prior_terms::<C>(labels, None, one, zero);
    let (positive, total) = choose|positive: C, total: C|
        {
            &&& fold::folds_to(plus, zero, terms, positive)
            &&& total == rows
            &&& #[trigger] call_ensures(finish, (positive, total), score)
        };
    sums::fold_adds_the_total(plus, zero, terms, positive, amount, amount);
    unweighted_terms_total(labels, one, zero, amount);
    positive
}

} // verus!
