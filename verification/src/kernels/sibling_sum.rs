//! The histogram of a child as the difference of its parent's and its sibling's.
use crate::kernels::fixed_build;
use crate::stable;
use vstd::arithmetic::div_mod;
use vstd::prelude::*;

verus! {

/// The first `n` rows alone decide what they bring.
proof fn cell_sum_of_prefix(
    binned: Seq<u32>,
    grad: Seq<i64>,
    hess: Seq<i64>,
    bin: u32,
    g: i64,
    h: i64,
    c: int,
    n: int,
)
    requires
        n <= binned.len(),
        grad.len() == binned.len(),
        hess.len() == binned.len(),
    ensures
        fixed_build::cell_sum(binned.push(bin), grad.push(g), hess.push(h), c, n) == fixed_build::cell_sum(
            binned,
            grad,
            hess,
            c,
            n,
        ),
    decreases n,
{
    if n > 0 {
        cell_sum_of_prefix(binned, grad, hess, bin, g, h, c, n - 1);
        assert(binned.push(bin)[n - 1] == binned[n - 1]);
        assert(grad.push(g)[n - 1] == grad[n - 1]);
        assert(hess.push(h)[n - 1] == hess[n - 1]);
    }
}

/// What the rows of a leaf bring to a cell is what the rows of its two children bring, so the
/// cell of one child is the leaf's less that of the other child.
pub proof fn sibling_is_the_difference(
    binned: Seq<u32>,
    grad: Seq<i64>,
    hess: Seq<i64>,
    marks: Seq<bool>,
    c: int,
)
    requires
        grad.len() == binned.len(),
        hess.len() == binned.len(),
        marks.len() == binned.len(),
    ensures
        ({
            let leaf = fixed_build::cell_sum(binned, grad, hess, c, binned.len() as int);
            let left = fixed_build::cell_sum(
                stable::chosen(binned, marks, true),
                stable::chosen(grad, marks, true),
                stable::chosen(hess, marks, true),
                c,
                stable::tally(marks, true) as int,
            );
            let right = fixed_build::cell_sum(
                stable::chosen(binned, marks, false),
                stable::chosen(grad, marks, false),
                stable::chosen(hess, marks, false),
                c,
                stable::tally(marks, false) as int,
            );
            &&& leaf == left + right
            &&& fixed_build::wrapped(fixed_build::wrapped(leaf) - fixed_build::wrapped(left))
                == fixed_build::wrapped(right)
            &&& fixed_build::wrapped(fixed_build::wrapped(leaf) - fixed_build::wrapped(right))
                == fixed_build::wrapped(left)
        }),
    decreases binned.len(),
{
    let n = binned.len() as int;
    let leaf = fixed_build::cell_sum(binned, grad, hess, c, n);
    let left = fixed_build::cell_sum(
        stable::chosen(binned, marks, true),
        stable::chosen(grad, marks, true),
        stable::chosen(hess, marks, true),
        c,
        stable::tally(marks, true) as int,
    );
    let right = fixed_build::cell_sum(
        stable::chosen(binned, marks, false),
        stable::chosen(grad, marks, false),
        stable::chosen(hess, marks, false),
        c,
        stable::tally(marks, false) as int,
    );
    if n > 0 {
        let (b, g, h, m) = (binned.drop_last(), grad.drop_last(), hess.drop_last(), marks.drop_last());
        let side = marks.last();
        sibling_is_the_difference(b, g, h, m, c);
        stable::chosen_len(b, m, side);
        stable::chosen_len(g, m, side);
        stable::chosen_len(h, m, side);
        let (sb, sg, sh) = (stable::chosen(b, m, side), stable::chosen(g, m, side), stable::chosen(h, m, side));
        cell_sum_of_prefix(b, g, h, binned.last(), grad.last(), hess.last(), c, n - 1);
        cell_sum_of_prefix(sb, sg, sh, binned.last(), grad.last(), hess.last(), c, sb.len() as int);
        assert(b.push(binned.last()) =~= binned);
        assert(g.push(grad.last()) =~= grad);
        assert(h.push(hess.last()) =~= hess);
    }
    assert(leaf == left + right);
    div_mod::lemma_sub_mod_noop(leaf, left, 0x1_0000_0000_0000_0000);
    div_mod::lemma_sub_mod_noop(leaf, right, 0x1_0000_0000_0000_0000);
}

} // verus!
