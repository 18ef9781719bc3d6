//! The per-iteration decisions of the pipeline: which action the pair of fill
//! lengths calls for, and how the two outcomes of a joined read/write step
//! combine into one result.

use vstd::prelude::*;

verus! {

/// The action one loop iteration performs, decided from the two fill lengths.
///
/// In a `Pipelined` step exactly one buffer holds unwritten data: that buffer
/// is written out while the opposite buffer is refilled, so the two operations
/// never touch the same region. `Drain` flushes both buffers sequentially, and
/// `Done` ends the copy.
#[derive(Clone, Copy, PartialEq, Eq, Structural, Debug)]
pub enum Step {
    Pipelined { write_a: bool, read_into_a: bool },
    Drain,
    Done,
}

/// The decision function of the pipeline, as a mathematical map from the two
/// fill lengths to the action taken.
pub open spec fn spec_next_step(read_a: int, read_b: int) -> Step {
    if read_a > 0 && read_b == 0 {
        Step::Pipelined { write_a: true, read_into_a: false }
    } else if read_a == 0 && read_b > 0 {
        Step::Pipelined { write_a: false, read_into_a: true }
    } else if read_a == 0 && read_b == 0 {
        Step::Done
    } else {
        Step::Drain
    }
}

/// Each action characterizes the fill state it was decided from. In
/// particular a pipelined step writes from the one buffer that holds data and
/// reads into the other, so no buffer is ever refilled in the same step that
/// writes its previous contents; a drain step means both buffers hold data;
/// and the copy finishes only when neither does.
pub proof fn lemma_step_characterization(read_a: int, read_b: int)
    requires
        read_a >= 0,
        read_b >= 0,
    ensures
        spec_next_step(read_a, read_b) matches Step::Pipelined { write_a, read_into_a } ==> {
            &&& read_into_a == !write_a
            &&& (write_a ==> read_a > 0 && read_b == 0)
            &&& (!write_a ==> read_b > 0 && read_a == 0)
        },
        spec_next_step(read_a, read_b) is Drain ==> read_a > 0 && read_b > 0,
        spec_next_step(read_a, read_b) is Done ==> read_a == 0 && read_b == 0,
{
}

/// Decide the next action from the current fill lengths.
///
/// A pipelined step always reads into the buffer opposite the one it writes
/// from, and only ever writes from a buffer that holds data: no buffer is
/// refilled while its previous contents are still being written.
pub fn next_step(read_a: usize, read_b: usize) -> (s: Step)
    ensures
        s == spec_next_step(read_a as int, read_b as int),
        s matches Step::Pipelined { write_a, read_into_a } ==> {
            &&& read_into_a == !write_a
            &&& (write_a ==> read_a > 0 && read_b == 0)
            &&& (!write_a ==> read_b > 0 && read_a == 0)
        },
{
    if read_a > 0 && read_b == 0 {
        Step::Pipelined { write_a: true, read_into_a: false }
    } else if read_a == 0 && read_b > 0 {
        Step::Pipelined { write_a: false, read_into_a: true }
    } else if read_a == 0 && read_b == 0 {
        Step::Done
    } else {
        Step::Drain
    }
}

/// Combine the two outcomes of one joined read/write step into the step's
/// result: a read failure is surfaced first and supersedes whatever the write
/// half did; otherwise a write failure aborts; otherwise the step yields the
/// new fill length reported by the read.
pub fn resolve_joined<E>(read_res: Result<usize, E>, write_res: Result<(), E>) -> (r: Result<
    usize,
    E,
>)
    ensures
        read_res is Err ==> r == read_res,
        read_res is Ok && write_res is Err ==> r is Err && r->Err_0 == write_res->Err_0,
        read_res is Ok && write_res is Ok ==> r == read_res,
{
    match read_res {
        Err(e) => Err(e),
        Ok(n) => match write_res {
            Err(e) => Err(e),
            Ok(_) => Ok(n),
        },
    }
}

} // verus!
