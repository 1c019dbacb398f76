//! The row-to-leaf map of a whole growth, carried from split to split.
use crate::error;
use crate::error::{ComputeError, Fault};
use crate::kernels::data_partition;
use vstd::prelude::*;

verus! {

/// How the running map is carried from one split to the next.
#[derive(Clone, Copy, Debug, PartialEq, Eq, Structural)]
pub enum LeafMapBufferStrategy {
    /// One buffer, read and written in place.
    Alias,
    /// A source that is read and a copy that is written, swapped after each split.
    DoubleBuffer,
}

/// The rows of one split leaf, their marks (1 for the left child), and the child leaf ids.
#[derive(Clone, Copy, Debug)]
pub struct LeafMapStep<'a> {
    pub data_indices: &'a [u32],
    pub to_left: &'a [u32],
    pub left_leaf: i32,
    pub right_leaf: i32,
}

/// A map with the entries of `update` that are not -1 taken over.
pub open spec fn merged(base: Seq<i32>, update: Seq<i32>) -> Seq<i32> {
    Seq::new(base.len(), |row: int| if update[row] != -1 { update[row] } else { base[row] })
}

/// A map after the first `n` splits.
pub open spec fn map_after(init: Seq<i32>, steps: Seq<LeafMapStep<'_>>, n: int) -> Seq<i32>
    decreases n,
{
    if n <= 0 {
        init
    } else {
        let step = steps[n - 1];
        merged(
            map_after(init, steps, n - 1),
            data_partition::leaf_writes(
                Seq::new(init.len(), |row: int| -1i32),
                step.data_indices@,
                step.to_left@,
                step.left_leaf,
                step.right_leaf,
            ),
        )
    }
}

/// The fault of the first split, from `from` on, whose rows or marks are bad.
pub open spec fn steps_fault(steps: Seq<LeafMapStep<'_>>, num_data: usize, from: int) -> Option<Fault>
    decreases steps.len() - from,
{
    if from >= steps.len() {
        None
    } else {
        let fault = data_partition::leaf_map_fault(
            steps[from].data_indices@,
            steps[from].to_left@,
            num_data,
        );
        if fault is Some {
            fault
        } else {
            steps_fault(steps, num_data, from + 1)
        }
    }
}

/// A split with real leaf ids and no row twice gives each of its rows its child's leaf, and
/// leaves every other row as it was.
pub proof fn split_moves_only_its_rows(base: Seq<i32>, step: LeafMapStep<'_>)
    requires
        step.data_indices@.len() == step.to_left@.len(),
        step.data_indices@.no_duplicates(),
        forall|i: int| 0 <= i < step.data_indices@.len() ==> #[trigger] step.data_indices@[i] < base.len(),
        step.left_leaf != -1,
        step.right_leaf != -1,
    ensures
        ({
            let next = merged(
                base,
                data_partition::leaf_writes(
                    Seq::new(base.len(), |row: int| -1i32),
                    step.data_indices@,
                    step.to_left@,
                    step.left_leaf,
                    step.right_leaf,
                ),
            );
            &&& forall|i: int|
                0 <= i < step.data_indices@.len() ==> next[#[trigger] step.data_indices@[i] as int] == (
                if step.to_left@[i] == 1 { step.left_leaf } else { step.right_leaf })
            &&& forall|row: int|
                0 <= row < base.len() && (forall|i: int|
                    0 <= i < step.data_indices@.len() ==> #[trigger] step.data_indices@[i] != row)
                    ==> #[trigger] next[row] == base[row]
        }),
{
    data_partition::leaf_writes_by_row(
        Seq::new(base.len(), |row: int| -1i32),
        step.data_indices@,
        step.to_left@,
        step.left_leaf,
        step.right_leaf,
    );
}

fn copy_map(map: &Vec<i32>) -> (copy: Vec<i32>)
    ensures
        copy@ == map@,
{
    let mut copy: Vec<i32> = Vec::with_capacity(map.len());
    let mut i: usize = 0;
    while i < map.len()
        invariant
            i <= map@.len(),
            copy@ == map@.take(i as int),
        decreases map@.len() - i,
    {
        copy.push(map[i]);
        i += 1;
        assert(copy@ =~= map@.take(i as int));
    }
    assert(copy@ =~= map@);
    copy
}

fn merge_into(map: &mut Vec<i32>, update: &Vec<i32>)
    requires
        old(map)@.len() == update@.len(),
    ensures
        final(map)@ == merged(old(map)@, update@),
{
    let mut row: usize = 0;
    while row < update.len()
        invariant
            row <= update@.len(),
            map@.len() == update@.len(),
            old(map)@.len() == update@.len(),
            forall|k: int| 0 <= k < row ==> #[trigger] map@[k] == merged(old(map)@, update@)[k],
            forall|k: int| row <= k < map@.len() ==> #[trigger] map@[k] == old(map)@[k],
        decreases update@.len() - row,
    {
        let v: i32 = update[row];
        if v != -1 {
            map.set(row, v);
        }
        row += 1;
    }
    assert(map@ =~= merged(old(map)@, update@));
}

/// The row-to-leaf map of `num_data` rows after a sequence of splits, from a map that holds
/// `init_leaf` everywhere. The strategy does not change the result.
pub fn build_leaf_map_on(
    num_data: usize,
    init_leaf: i32,
    steps: &[LeafMapStep<'_>],
    strategy: LeafMapBufferStrategy,
) -> (r: Result<Vec<i32>, ComputeError>)
    ensures
        error::fails_as(r, steps_fault(steps@, num_data, 0)),
        r matches Ok(map) ==> map@ == map_after(
            Seq::new(num_data as nat, |row: int| init_leaf),
            steps@,
            steps@.len() as int,
        ),
{
    let ghost init = Seq::new(num_data as nat, |row: int| init_leaf);
    let mut running: Vec<i32> = vec![init_leaf; num_data];
    assert(running@ =~= init);
    let mut i: usize = 0;
    while i < steps.len()
        invariant
            i <= steps@.len(),
            init == Seq::new(num_data as nat, |row: int| init_leaf),
            steps_fault(steps@, num_data, 0) == steps_fault(steps@, num_data, i as int),
            running@.len() == num_data,
            running@ == map_after(init, steps@, i as int),
        decreases steps@.len() - i,
    {
        let step = &steps[i];
        let per_split = data_partition::update_data_index_to_leaf_on(
            step.data_indices,
            step.to_left,
            num_data,
            step.left_leaf,
            step.right_leaf,
        )?;
        proof {
            data_partition::no_bad_row(step.data_indices@, num_data, 0);
            data_partition::leaf_writes_len(
                Seq::new(num_data as nat, |row: int| -1i32),
                step.data_indices@,
                step.to_left@,
                step.left_leaf,
                step.right_leaf,
            );
            assert(Seq::new(init.len(), |row: int| -1i32) =~= Seq::new(num_data as nat, |row: int| -1i32));
        }
        match strategy {
            LeafMapBufferStrategy::Alias => {
                merge_into(&mut running, &per_split);
            },
            LeafMapBufferStrategy::DoubleBuffer => {
                let mut next = copy_map(&running);
                merge_into(&mut next, &per_split);
                running = next;
            },
        }
        i += 1;
    }
    Ok(running)
}

} // verus!
