//! Ordered folds and element-wise maps with an operation that the caller supplies.
use vstd::prelude::*;

verus! {

/// `result` comes out of `start` by taking the values in one by one, in their order.
pub open spec fn folds_to<C, V, F: Fn(C, V) -> C>(op: F, start: C, values: Seq<V>, result: C) -> bool
    decreases values.len(),
{
    if values.len() == 0 {
        result == start
    } else {
        exists|before: C|
            folds_to(op, start, values.drop_last(), before) && #[trigger] call_ensures(
                op,
                (before, values.last()),
                result,
            )
    }
}

/// The operation can be called on every pair of values.
pub open spec fn is_total<C, V, F: Fn(C, V) -> C>(op: F) -> bool {
    forall|c: C, v: V| #[trigger] call_requires(op, (c, v))
}

/// The operation gives one result for each pair of values.
pub open spec fn is_function<C, V, F: Fn(C, V) -> C>(op: F) -> bool {
    forall|c: C, v: V, r1: C, r2: C| #[trigger]
        call_ensures(op, (c, v), r1) && #[trigger] call_ensures(op, (c, v), r2) ==> r1 == r2
}

/// A fold goes on with one more value.
pub proof fn fold_extends<C, V, F: Fn(C, V) -> C>(op: F, start: C, values: Seq<V>, before: C, v: V, result: C)
    requires
        folds_to(op, start, values, before),
        call_ensures(op, (before, v), result),
    ensures
        folds_to(op, start, values.push(v), result),
{
    assert(values.push(v).drop_last() =~= values);
    assert(call_ensures(op, (before, values.push(v).last()), result));
}

/// An ordered fold with an operation that is a function has one result.
pub proof fn fold_is_unique<C, V, F: Fn(C, V) -> C>(op: F, start: C, values: Seq<V>, a: C, b: C)
    requires
        is_function(op),
        folds_to(op, start, values, a),
        folds_to(op, start, values, b),
    ensures
        a == b,
    decreases values.len(),
{
    if values.len() > 0 {
        let x = choose|x: C|
            folds_to(op, start, values.drop_last(), x) && #[trigger] call_ensures(op, (x, values.last()), a);
        let y = choose|y: C|
            folds_to(op, start, values.drop_last(), y) && #[trigger] call_ensures(op, (y, values.last()), b);
        fold_is_unique(op, start, values.drop_last(), x, y);
    }
}

/// Take the values of a slice in one by one, in their order.
pub fn ordered_fold<C: Copy, V: Copy, F: Fn(C, V) -> C>(op: &F, start: C, values: &[V]) -> (result: C)
    requires
        is_total(*op),
    ensures
        folds_to(*op, start, values@, result),
{
    let mut acc: C = start;
    let mut i: usize = 0;
    while i < values.len()
        invariant
            i <= values@.len(),
            is_total(*op),
            folds_to(*op, start, values@.take(i as int), acc),
        decreases values@.len() - i,
    {
        let before = acc;
        acc = op(before, values[i]);
        proof {
            fold_extends(*op, start, values@.take(i as int), before, values@[i as int], acc);
            assert(values@.take(i as int).push(values@[i as int]) =~= values@.take(i + 1));
        }
        i += 1;
    }
    assert(values@.take(i as int) =~= values@);
    acc
}

/// Each element of `out` is what `op` makes of the value at its place.
pub open spec fn is_mapped<V, T, F: Fn(V) -> T>(op: F, values: Seq<V>, out: Seq<T>) -> bool {
    &&& out.len() == values.len()
    &&& forall|i: int| 0 <= i < values.len() ==> call_ensures(op, (values[i],), #[trigger] out[i])
}

/// `op` can be called on every value.
pub open spec fn maps_all<V, T, F: Fn(V) -> T>(op: F) -> bool {
    forall|v: V| #[trigger] call_requires(op, (v,))
}

/// Apply `op` to each value.
pub fn mapped<V: Copy, T, F: Fn(V) -> T>(op: &F, values: &[V]) -> (out: Vec<T>)
    requires
        maps_all(*op),
    ensures
        is_mapped(*op, values@, out@),
{
    let mut out: Vec<T> = Vec::with_capacity(values.len());
    let mut i: usize = 0;
    while i < values.len()
        invariant
            i <= values@.len(),
            maps_all(*op),
            is_mapped(*op, values@.take(i as int), out@),
        decreases values@.len() - i,
    {
        let v: V = values[i];
        let t: T = op(v);
        out.push(t);
        i += 1;
    }
    assert(values@.take(i as int) =~= values@);
    out
}

} // verus!
