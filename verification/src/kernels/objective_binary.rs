//! The binary objective: which rows are positive, how a row's gradient and hessian are weighted,
//! and the terms of the starting score. The arithmetic on scores is the caller's.
use crate::error;
use crate::error::{ComputeError, Fault};
use crate::fold;
use crate::number::Real64;
use vstd::prelude::*;

verus! {

/// The bit pattern of 1.
pub const ONE: u64 = 0x3ff0_0000_0000_0000;

/// The bit pattern of -1.
pub const MINUS_ONE: u64 = 0xbff0_0000_0000_0000;

/// The fault of an objective's inputs: labels, or weights, that are not one per row.
pub open spec fn gradient_fault(scores: nat, labels: nat, weights: Option<nat>) -> Option<Fault> {
    if labels != scores {
        Some(Fault::LengthMismatch { expected: scores, actual: labels })
    } else {
        match weights {
            Some(w) => if w != scores {
                Some(Fault::LengthMismatch { expected: scores, actual: w })
            } else {
                None
            },
            None => None,
        }
    }
}

/// A number of weights.
pub open spec fn count_view(weights: Option<usize>) -> Option<nat> {
    match weights {
        Some(w) => Some(w as nat),
        None => None,
    }
}

/// Check that labels and weights are one per row.
pub fn validate_gh(scores: usize, labels: usize, weights: Option<usize>) -> (r: Result<(), ComputeError>)
    ensures
        error::fails_as(r, gradient_fault(scores as nat, labels as nat, count_view(weights))),
{
    if labels != scores {
        return Err(ComputeError::LengthMismatch { expected: scores, actual: labels });
    }
    if let Some(w) = weights {
        if w != scores {
            return Err(ComputeError::LengthMismatch { expected: scores, actual: w });
        }
    }
    Ok(())
}

/// Whether a label is positive.
pub open spec fn is_positive(label: Real64) -> bool {
    label.spec_above(Real64::spec_zero())
}

/// `after` is `before` times the factor, or `before` itself where there is none.
pub open spec fn is_weighted<C, M: Fn(C, C) -> C>(times: M, before: C, factor: Option<C>, after: C) -> bool {
    match factor {
        Some(f) => call_ensures(times, (before, f), after),
        None => after == before,
    }
}

/// The weight of a row's class, where the classes are weighted.
pub open spec fn class_weight<C>(positive: bool, label_weights: Option<(C, C)>) -> Option<C> {
    match label_weights {
        Some((negative_weight, positive_weight)) => Some(
            if positive {
                positive_weight
            } else {
                negative_weight
            },
        ),
        None => None,
    }
}

/// `v` is `value` times the weight of the row's class, then times the row's own weight.
pub open spec fn is_row_weighted<C, M: Fn(C, C) -> C>(
    times: M,
    value: C,
    class: Option<C>,
    weight: Option<C>,
    v: C,
) -> bool {
    exists|classed: C| #[trigger]
        is_weighted(times, value, class, classed) && is_weighted(times, classed, weight, v)
}

/// The gradient and hessian of a row: the response to its score, and the curvature there, each
/// weighted.
pub open spec fn is_row_gradient<C, R: Fn(C, bool) -> C, H: Fn(C) -> C, M: Fn(C, C) -> C>(
    respond: R,
    curve: H,
    times: M,
    score: C,
    positive: bool,
    class: Option<C>,
    weight: Option<C>,
    g: C,
    h: C,
) -> bool {
    exists|response: C, curvature: C|
        {
            &&& #[trigger] call_ensures(respond, (score, positive), response)
            &&& #[trigger] call_ensures(curve, (response,), curvature)
            &&& is_row_weighted(times, response, class, weight, g)
            &&& is_row_weighted(times, curvature, class, weight, h)
        }
}

/// A row's own weight, where rows are weighted.
pub open spec fn row_weight<C>(weights: Option<Seq<C>>, i: int) -> Option<C> {
    match weights {
        Some(w) => Some(w[i]),
        None => None,
    }
}

/// What the weights hold.
pub open spec fn weights_view<C>(weights: Option<&[C]>) -> Option<Seq<C>> {
    match weights {
        Some(w) => Some(w@),
        None => None,
    }
}

/// How many weights there are.
pub open spec fn weights_count<C>(weights: Option<&[C]>) -> Option<nat> {
    match weights {
        Some(w) => Some(w@.len()),
        None => None,
    }
}

/// The value times the factor, or the value itself where there is none.
fn weighted<C: Copy, M: Fn(C, C) -> C>(times: &M, value: C, factor: Option<C>) -> (v: C)
    requires
        fold::is_total(*times),
    ensures
        is_weighted(*times, value, factor, v),
{
    match factor {
        Some(f) => times(value, f),
        None => value,
    }
}

/// The gradients and hessians of all rows. `respond` gives the response to a score for a positive
/// or another label, `curve` the curvature at a response; both results are multiplied by the
/// weight of the row's class, given for other and for positive labels, and by the row's own
/// weight.
pub fn get_gradients_on<C: Copy, R: Fn(C, bool) -> C, H: Fn(C) -> C, M: Fn(C, C) -> C>(
    respond: &R,
    curve: &H,
    times: &M,
    scores: &[C],
    labels: &[Real64],
    weights: Option<&[C]>,
    label_weights: Option<(C, C)>,
) -> (r: Result<(Vec<C>, Vec<C>), ComputeError>)
    requires
        forall|c: C, positive: bool| #[trigger] call_requires(*respond, (c, positive)),
        forall|c: C| #[trigger] call_requires(*curve, (c,)),
        fold::is_total(*times),
    ensures
        error::fails_as(r, gradient_fault(scores@.len(), labels@.len(), weights_count(weights))),
        r matches Ok(gh) ==> {
            &&& gh.0@.len() == scores@.len()
            &&& gh.1@.len() == scores@.len()
            &&& forall|i: int|
                0 <= i < scores@.len() ==> is_row_gradient(
                    *respond,
                    *curve,
                    *times,
                    scores@[i],
                    is_positive(labels@[i]),
                    class_weight(is_positive(labels@[i]), label_weights),
                    row_weight(weights_view(weights), i),
                    #[trigger] gh.0@[i],
                    gh.1@[i],
                )
        },
{
    let count: Option<usize> = match weights {
        Some(w) => Some(w.len()),
        None => None,
    };
    validate_gh(scores.len(), labels.len(), count)?;
    let mut grad: Vec<C> = Vec::with_capacity(scores.len());
    let mut hess: Vec<C> = Vec::with_capacity(scores.len());
    let mut i: usize = 0;
    while i < scores.len()
        invariant
            i <= scores@.len(),
            labels@.len() == scores@.len(),
            weights matches Some(w) ==> w@.len() == scores@.len(),
            forall|c: C, positive: bool| #[trigger] call_requires(*respond, (c, positive)),
            forall|c: C| #[trigger] call_requires(*curve, (c,)),
            fold::is_total(*times),
            grad@.len() == i,
            hess@.len() == i,
            forall|k: int|
                0 <= k < i ==> is_row_gradient(
                    *respond,
                    *curve,
                    *times,
                    scores@[k],
                    is_positive(labels@[k]),
                    class_weight(is_positive(labels@[k]), label_weights),
                    row_weight(weights_view(weights), k),
                    #[trigger] grad@[k],
                    hess@[k],
                ),
        decreases scores@.len() - i,
    {
        let positive: bool = labels[i].above(Real64::zero());
        let class: Option<C> = match label_weights {
            Some((negative_weight, positive_weight)) => if positive {
                Some(positive_weight)
            } else {
                Some(negative_weight)
            },
            None => None,
        };
        let weight: Option<C> = match weights {
            Some(w) => Some(w[i]),
            None => None,
        };
        let response: C = respond(scores[i], positive);
        let curvature: C = curve(response);
        let g_class: C = weighted(times, response, class);
        let g: C = weighted(times, g_class, weight);
        let h_class: C = weighted(times, curvature, class);
        let h: C = weighted(times, h_class, weight);
        proof {
            assert(is_weighted(*times, response, class, g_class));
            assert(is_row_weighted(*times, response, class, weight, g));
            assert(is_weighted(*times, curvature, class, h_class));
            assert(is_row_weighted(*times, curvature, class, weight, h));
            assert(call_ensures(*respond, (scores@[i as int], positive), response));
            assert(call_ensures(*curve, (response,), curvature));
        }
        grad.push(g);
        hess.push(h);
        i += 1;
    }
    Ok((grad, hess))
}

/// Each score turned into what the model puts out.
pub fn sigmoid_convert_output_on<C: Copy, F: Fn(C) -> C>(convert: &F, input: &[C]) -> (out: Vec<C>)
    requires
        fold::maps_all(*convert),
    ensures
        fold::is_mapped(*convert, input@, out@),
{
    fold::mapped(convert, input)
}

/// The fault of the starting score's inputs: weights that are not one per label, where there are
/// labels at all.
pub open spec fn prior_fault(labels: nat, weights: Option<nat>) -> Option<Fault> {
    match weights {
        Some(w) => if labels != 0 && w != labels {
            Some(Fault::LengthMismatch { expected: labels, actual: w })
        } else {
            None
        },
        None => None,
    }
}

/// The term of a row: its weight where it is positive, else zero.
pub open spec fn prior_term<C>(label: Real64, weight: Option<C>, one: C, zero: C) -> C {
    if is_positive(label) {
        match weight {
            Some(w) => w,
            None => one,
        }
    } else {
        zero
    }
}

/// The term of every row.
pub open spec fn prior_terms<C>(labels: Seq<Real64>, weights: Option<Seq<C>>, one: C, zero: C) -> Seq<C> {
    Seq::new(labels.len(), |i: int| prior_term(labels[i], row_weight(weights, i), one, zero))
}

/// `score` is what `finish` makes of two sums: the weights of the positive rows, and all weights,
/// each added up from zero in the order of the rows. Without weights a positive row counts as one,
/// and `rows` is the second sum.
pub open spec fn is_starting_score<C, A: Fn(C, C) -> C, F: Fn(C, C) -> C>(
    plus: A,
    finish: F,
    one: C,
    zero: C,
    rows: C,
    labels: Seq<Real64>,
    weights: Option<Seq<C>>,
    score: C,
) -> bool {
    exists|positive: C, total: C|
        {
            &&& fold::folds_to(plus, zero, prior_terms(labels, weights, one, zero), positive)
            &&& match weights {
                Some(w) => fold::folds_to(plus, zero, w, total),
                None => total == rows,
            }
            &&& #[trigger] call_ensures(finish, (positive, total), score)
        }
}

/// The score that a model starts from: what `finish` makes of the positive rows' weight and the
/// weight of all rows, and zero where there are no labels. `rows` is the number of labels.
pub fn boost_from_score_on<C: Copy, A: Fn(C, C) -> C, F: Fn(C, C) -> C>(
    plus: &A,
    finish: &F,
    one: C,
    zero: C,
    rows: C,
    labels: &[Real64],
    weights: Option<&[C]>,
) -> (r: Result<C, ComputeError>)
    requires
        fold::is_total(*plus),
        fold::is_total(*finish),
    ensures
        error::fails_as(r, prior_fault(labels@.len(), weights_count(weights))),
        r matches Ok(score) ==> if labels@.len() == 0 {
            score == zero
        } else {
            is_starting_score(*plus, *finish, one, zero, rows, labels@, weights_view(weights), score)
        },
{
    if labels.len() == 0 {
        return Ok(zero);
    }
    if let Some(w) = weights {
        if w.len() != labels.len() {
            return Err(ComputeError::LengthMismatch { expected: labels.len(), actual: w.len() });
        }
    }
    let mut terms: Vec<C> = Vec::with_capacity(labels.len());
    let ghost all = prior_terms(labels@, weights_view(weights), one, zero);
    let mut i: usize = 0;
    while i < labels.len()
        invariant
            i <= labels@.len(),
            weights matches Some(w) ==> w@.len() == labels@.len(),
            all == prior_terms(labels@, weights_view(weights), one, zero),
            terms@ == all.take(i as int),
        decreases labels@.len() - i,
    {
        let term: C = if labels[i].above(Real64::zero()) {
            match weights {
                Some(w) => w[i],
                None => one,
            }
        } else {
            zero
        };
        terms.push(term);
        i += 1;
        assert(terms@ =~= all.take(i as int));
    }
    assert(terms@ =~= all);
    let positive: C = fold::ordered_fold(plus, zero, terms.as_slice());
    let total: C = match weights {
        Some(w) => fold::ordered_fold(plus, zero, w),
        None => rows,
    };
    let score: C = finish(positive, total);
    assert(call_ensures(*finish, (positive, total), score));
    Ok(score)
}

/// The labels of one class against all others: 1 where the label is the class, else -1.
pub fn reset_ova_label_on(labels: &[Real64], class_id: Real64) -> (out: Vec<Real64>)
    ensures
        out@ == Seq::new(
            labels@.len(),
            |i: int|
                if labels@[i].spec_same(class_id) {
                    (Real64 { bits: ONE })
                } else {
                    (Real64 { bits: MINUS_ONE })
                },
        ),
{
    let mut out: Vec<Real64> = Vec::with_capacity(labels.len());
    let ghost all = Seq::new(
        labels@.len(),
        |i: int|
            if labels@[i].spec_same(class_id) {
                (Real64 { bits: ONE })
            } else {
                (Real64 { bits: MINUS_ONE })
            },
    );
    let mut i: usize = 0;
    while i < labels.len()
        invariant
            i <= labels@.len(),
            all == Seq::new(
                labels@.len(),
                |k: int|
                    if labels@[k].spec_same(class_id) {
                        (Real64 { bits: ONE })
                    } else {
                        (Real64 { bits: MINUS_ONE })
                    },
            ),
            out@ == all.take(i as int),
        decreases labels@.len() - i,
    {
        if labels[i].same(class_id) {
            out.push(Real64 { bits: ONE });
        } else {
            out.push(Real64 { bits: MINUS_ONE });
        }
        i += 1;
        assert(out@ =~= all.take(i as int));
    }
    assert(out@ =~= all);
    out
}

} // verus!
