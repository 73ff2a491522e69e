//! The stack as a mathematical sequence of values, top at index 0, and what
//! pushes and pops do to it, one at a time and in runs.

use vstd::prelude::*;

verus! {

/// The stack `s` with `elem` put on top.
pub open spec fn push(s: Seq<i32>, elem: i32) -> Seq<i32> {
    seq![elem] + s
}

/// What a pop of `s` hands out: the top, or nothing when `s` is empty.
pub open spec fn top(s: Seq<i32>) -> Option<i32> {
    if s.len() == 0 {
        None
    } else {
        Some(s[0])
    }
}

/// What a pop of `s` leaves behind: `s` without its top. An empty `s` stays
/// as it is.
pub open spec fn rest(s: Seq<i32>) -> Seq<i32> {
    if s.len() == 0 {
        s
    } else {
        s.skip(1)
    }
}

/// One call on a stack.
pub enum Op {
    Push(i32),
    Pop,
}

/// The stack after `op` on `s`.
pub open spec fn step(s: Seq<i32>, op: Op) -> Seq<i32> {
    match op {
        Op::Push(elem) => push(s, elem),
        Op::Pop => rest(s),
    }
}

/// The stack after the calls `ops`, made in order on `s`.
pub open spec fn run(s: Seq<i32>, ops: Seq<Op>) -> Seq<i32>
    decreases ops.len(),
{
    if ops.len() == 0 {
        s
    } else {
        step(run(s, ops.drop_last()), ops.last())
    }
}

/// What the pops among `ops` hand out, in the order in which they are made,
/// when `ops` runs on `s`.
pub open spec fn results(s: Seq<i32>, ops: Seq<Op>) -> Seq<Option<i32>>
    decreases ops.len(),
{
    if ops.len() == 0 {
        Seq::empty()
    } else {
        let earlier = ops.drop_last();
        match ops.last() {
            Op::Push(_) => results(s, earlier),
            Op::Pop => results(s, earlier).push(top(run(s, earlier))),
        }
    }
}

/// One push for each value of `vs`, in order.
pub open spec fn pushes(vs: Seq<i32>) -> Seq<Op> {
    Seq::new(vs.len(), |i: int| Op::Push(vs[i]))
}

/// `n` pops.
pub open spec fn pops(n: nat) -> Seq<Op> {
    Seq::new(n, |i: int| Op::Pop)
}

/// Pushes minus pops in `ops`.
pub open spec fn net(ops: Seq<Op>) -> int
    decreases ops.len(),
{
    if ops.len() == 0 {
        0
    } else {
        match ops.last() {
            Op::Push(_) => net(ops.drop_last()) + 1,
            Op::Pop => net(ops.drop_last()) - 1,
        }
    }
}

/// At no moment has `ops` made more pops than pushes: every pop in it takes
/// a value that an earlier push of `ops` put there.
pub open spec fn self_contained(ops: Seq<Op>) -> bool {
    forall|k: int| 0 <= k <= ops.len() ==> net(#[trigger] ops.take(k)) >= 0
}

/// `ops` is self-contained and takes off as many values as it puts on.
pub open spec fn balanced(ops: Seq<Op>) -> bool {
    self_contained(ops) && net(ops) == 0
}

} // verus!
