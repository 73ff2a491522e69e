//! What holds of every run of pushes and pops.

use crate::model::{balanced, net, pops, push, pushes, rest, results, run, self_contained, top, Op};
use vstd::prelude::*;

verus! {

/// A push followed by a pop hands back the pushed value and leaves the stack
/// as it was before the push.
pub proof fn lemma_push_pop_round_trip(s: Seq<i32>, elem: i32)
    ensures
        top(push(s, elem)) == Some(elem),
        rest(push(s, elem)) == s,
{
}

/// Running `a` and then `b` is running `a + b`.
pub proof fn lemma_run_split(s: Seq<i32>, a: Seq<Op>, b: Seq<Op>)
    ensures
        run(s, a + b) == run(run(s, a), b),
        results(s, a + b) == results(s, a) + results(run(s, a), b),
        net(a + b) == net(a) + net(b),
    decreases b.len(),
{
    if b.len() > 0 {
        assert((a + b).drop_last() =~= a + b.drop_last());
        lemma_run_split(s, a, b.drop_last());
    }
}

/// A run of pushes stacks the values up, the last pushed on top, above what
/// was there, and hands out nothing.
pub proof fn lemma_pushes(s: Seq<i32>, vs: Seq<i32>)
    ensures
        run(s, pushes(vs)) == vs.reverse() + s,
        results(s, pushes(vs)) == Seq::<Option<i32>>::empty(),
        net(pushes(vs)) == vs.len(),
        self_contained(pushes(vs)),
    decreases vs.len(),
{
    if vs.len() > 0 {
        let earlier = vs.drop_last();
        assert(pushes(vs).drop_last() =~= pushes(earlier));
        lemma_pushes(s, earlier);
        assert forall|k: int| 0 <= k <= pushes(vs).len() implies net(
            #[trigger] pushes(vs).take(k),
        ) >= 0 by {
            if k < vs.len() {
                assert(pushes(vs).take(k) =~= pushes(earlier).take(k));
            } else {
                assert(pushes(vs).take(k) =~= pushes(vs));
            }
        }
    }
}

/// A run of pops reads the stack from the top down: the pop with number `i`
/// hands out the value at index `i`, and every pop after the last value
/// hands out nothing. What is left is the stack without the values handed out.
pub proof fn lemma_pops(s: Seq<i32>, n: nat)
    ensures
        results(s, pops(n)) == Seq::new(
            n,
            |i: int|
                if i < s.len() {
                    Some(s[i])
                } else {
                    None
                },
        ),
        n <= s.len() ==> run(s, pops(n)) == s.skip(n as int),
        n >= s.len() ==> run(s, pops(n)) == Seq::<i32>::empty(),
    decreases n,
{
    if n > 0 {
        let m: nat = (n - 1) as nat;
        assert(pops(n).drop_last() =~= pops(m));
        lemma_pops(s, m);
    }
}

/// Strict last-in-first-out order: after the values `vs` have been pushed in
/// order, as many pops hand them out in the opposite order, and the stack is
/// then what it was before the pushes.
pub proof fn lemma_lifo_order(s: Seq<i32>, vs: Seq<i32>)
    ensures
        results(s, pushes(vs) + pops(vs.len())) == vs.reverse().map_values(|v: i32| Some(v)),
        run(s, pushes(vs) + pops(vs.len())) == s,
{
    lemma_run_split(s, pushes(vs), pops(vs.len()));
    lemma_pushes(s, vs);
    lemma_pops(vs.reverse() + s, vs.len());
}

/// Pushes and pops in any self-contained order leave alone what was on the
/// stack before them: it stays below, whole and in its order, under the
/// values that the run itself has put on and not yet taken off. Every pop of
/// the run hands out a value, and what the run hands out does not depend on
/// what lay below.
pub proof fn lemma_self_contained_run(s: Seq<i32>, ops: Seq<Op>)
    requires
        self_contained(ops),
    ensures
        run(s, ops) == run(Seq::empty(), ops) + s,
        run(Seq::empty(), ops).len() == net(ops),
        results(s, ops) == results(Seq::empty(), ops),
        forall|i: int| 0 <= i < results(s, ops).len() ==> (#[trigger] results(s, ops)[i]).is_some(),
    decreases ops.len(),
{
    if ops.len() > 0 {
        let earlier = ops.drop_last();
        assert forall|k: int| 0 <= k <= earlier.len() implies net(#[trigger] earlier.take(k))
            >= 0 by {
            assert(earlier.take(k) =~= ops.take(k));
        }
        lemma_self_contained_run(s, earlier);
        // A last pop finds a value that the run itself has pushed.
        assert(ops.take(ops.len() as int) =~= ops);
    }
}

/// The most recent push whose value has not been popped yet is the next to
/// be popped. If `ops[i]` is a push and the calls after it are balanced, so
/// that each later push has been popped again and no other pop was made, then
/// the next pop hands out the value of `ops[i]` and leaves the stack as it
/// was just before that push.
pub proof fn lemma_latest_unpopped_push_is_next(s: Seq<i32>, ops: Seq<Op>, i: int, elem: i32)
    requires
        0 <= i < ops.len(),
        ops[i] == Op::Push(elem),
        balanced(ops.skip(i + 1)),
    ensures
        top(run(s, ops)) == Some(elem),
        rest(run(s, ops)) == run(s, ops.take(i)),
{
    let before = ops.take(i);
    let upto = ops.take(i + 1);
    let after = ops.skip(i + 1);
    let below = run(s, before);
    assert(upto.drop_last() =~= before);
    assert(ops =~= upto + after);
    lemma_run_split(s, upto, after);
    lemma_self_contained_run(push(below, elem), after);
    lemma_push_pop_round_trip(below, elem);
}

/// Balanced calls stay balanced when a push and, later, the pop that takes
/// its value are put around the end of them.
proof fn lemma_balanced_wrap(inner: Seq<Op>, elem: i32, tail: Seq<Op>)
    requires
        balanced(inner),
        balanced(tail),
    ensures
        balanced(inner + seq![Op::Push(elem)] + tail + seq![Op::Pop]),
{
    let push_one = seq![Op::Push(elem)];
    let whole = inner + push_one + tail + seq![Op::Pop];
    assert(net(push_one) == 1) by {
        assert(push_one.drop_last() =~= Seq::<Op>::empty());
        assert(net(push_one.drop_last()) == 0);
    }
    assert(whole.drop_last() =~= inner + push_one + tail);
    lemma_run_split(Seq::empty(), inner, push_one);
    lemma_run_split(Seq::empty(), inner + push_one, tail);
    assert forall|k: int| 0 <= k <= whole.len() implies net(#[trigger] whole.take(k)) >= 0 by {
        if k <= inner.len() {
            assert(whole.take(k) =~= inner.take(k));
        } else if k < whole.len() {
            let part = tail.take(k - inner.len() - 1);
            assert(whole.take(k) =~= inner + push_one + part);
            lemma_run_split(Seq::empty(), inner + push_one, part);
        } else {
            assert(whole.take(k) =~= whole);
        }
    }
}

/// Started on an empty stack, a run that leaves a value on the stack holds a
/// push that has not been popped yet, with balanced calls after it: the
/// latest unpopped push, whose index is returned.
pub proof fn lemma_nonempty_has_unpopped_push(ops: Seq<Op>) -> (i: int)
    requires
        run(Seq::empty(), ops).len() > 0,
    ensures
        0 <= i < ops.len(),
        ops[i] is Push,
        balanced(ops.skip(i + 1)),
    decreases ops.len(),
{
    let earlier = ops.drop_last();
    match ops.last() {
        Op::Push(_) => {
            let i: int = ops.len() - 1;
            assert(ops.skip(i + 1) =~= Seq::<Op>::empty());
            assert(Seq::<Op>::empty().take(0) =~= Seq::<Op>::empty());
            i
        },
        Op::Pop => {
            // The last pop took the value of the latest unpopped push of
            // `earlier`, at `j`. What is on top now was on top just before `j`.
            let j: int = lemma_nonempty_has_unpopped_push(earlier);
            let elem: i32 = earlier[j]->Push_0;
            lemma_latest_unpopped_push_is_next(Seq::empty(), earlier, j, elem);
            let i: int = lemma_nonempty_has_unpopped_push(earlier.take(j));
            let inner = earlier.take(j).skip(i + 1);
            let tail = earlier.skip(j + 1);
            lemma_balanced_wrap(inner, elem, tail);
            assert(ops.skip(i + 1) =~= inner + seq![Op::Push(elem)] + tail + seq![Op::Pop]);
            i
        },
    }
}

} // verus!
