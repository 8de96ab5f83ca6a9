//! Linearized histories of stack operations.
//!
//! Every concurrent execution of the stack orders its operations at
//! their linearization points — the one load or compare-and-swap at
//! which each push or pop takes effect — so any interleaving of any
//! number of threads is described by a single sequence of operations.
//! This module gives that sequence its semantics and proves the laws
//! that hold of every such history: LIFO order, conservation of values
//! (nothing lost, nothing duplicated), and preservation of each
//! thread's own push order.

use vstd::prelude::*;
use vstd::seq_lib::group_to_multiset_ensures;

verus! {

/// One linearized stack operation.
pub enum Op<T> {
    /// A push of the given value.
    Push(T),
    /// A pop; it returns the top value, or nothing when the stack is
    /// empty at its linearization point.
    Pop,
}

/// The value a push carries.
pub open spec fn push_value<T>(op: Op<T>) -> T
    recommends
        op is Push,
{
    match op {
        Op::Push(v) => v,
        Op::Pop => vstd::pervasive::arbitrary(),
    }
}

/// One operation applied to stack contents (bottom first, top last).
pub open spec fn step_state<T>(s: Seq<T>, op: Op<T>) -> Seq<T> {
    match op {
        Op::Push(v) => s.push(v),
        Op::Pop => crate::stack::pop_rest(s),
    }
}

/// The stack contents after a whole history runs from state `s`.
pub open spec fn state_after<T>(s: Seq<T>, ops: Seq<Op<T>>) -> Seq<T>
    decreases ops.len(),
{
    if ops.len() == 0 {
        s
    } else {
        step_state(state_after(s, ops.drop_last()), ops.last())
    }
}

/// The values the pops of a history return, in linearization order.
/// A pop of an empty stack returns nothing and records nothing.
pub open spec fn popped_values<T>(s: Seq<T>, ops: Seq<Op<T>>) -> Seq<T>
    decreases ops.len(),
{
    if ops.len() == 0 {
        Seq::empty()
    } else {
        let before = state_after(s, ops.drop_last());
        let prev = popped_values(s, ops.drop_last());
        if ops.last() is Pop && before.len() > 0 {
            prev.push(before.last())
        } else {
            prev
        }
    }
}

/// The values the pushes of a history insert, in linearization order.
pub open spec fn pushed_values<T>(ops: Seq<Op<T>>) -> Seq<T>
    decreases ops.len(),
{
    if ops.len() == 0 {
        Seq::empty()
    } else if ops.last() is Push {
        pushed_values(ops.drop_last()).push(push_value(ops.last()))
    } else {
        pushed_values(ops.drop_last())
    }
}

/// A history that pushes the given values in order.
pub open spec fn push_ops<T>(vs: Seq<T>) -> Seq<Op<T>> {
    vs.map_values(|v: T| Op::Push(v))
}

/// A history of `n` pops.
pub open spec fn pop_ops<T>(n: nat) -> Seq<Op<T>> {
    Seq::new(n, |i: int| Op::Pop)
}

/// Pushing a sequence of values one after the other appends them to
/// the stack contents in that order.
pub proof fn lemma_push_all<T>(s: Seq<T>, vs: Seq<T>)
    ensures
        state_after(s, push_ops(vs)) == s + vs,
    decreases vs.len(),
{
    if vs.len() == 0 {
        assert(state_after(s, push_ops(vs)) =~= s + vs);
    } else {
        lemma_push_all(s, vs.drop_last());
        assert(push_ops(vs).drop_last() =~= push_ops(vs.drop_last()));
        assert(state_after(s, push_ops(vs)) =~= s + vs);
    }
}

/// Popping `k` times from a stack holding `vs` removes its top `k`
/// values and returns them newest first.
pub proof fn lemma_pop_k<T>(vs: Seq<T>, k: nat)
    requires
        k <= vs.len(),
    ensures
        state_after(vs, pop_ops(k)) == vs.take(vs.len() - k),
        popped_values(vs, pop_ops(k)) == vs.skip(vs.len() - k).reverse(),
    decreases k,
{
    if k == 0 {
        assert(state_after(vs, pop_ops(0)) =~= vs.take(vs.len() as int));
        assert(popped_values(vs, pop_ops(0)) =~= vs.skip(vs.len() as int).reverse());
    } else {
        lemma_pop_k(vs, (k - 1) as nat);
        assert(pop_ops::<T>(k).drop_last() =~= pop_ops::<T>((k - 1) as nat));
        let before = vs.take(vs.len() - (k - 1));
        assert(before.last() == vs[vs.len() - k]);
        assert(state_after(vs, pop_ops(k)) =~= vs.take(vs.len() - k));
        assert(popped_values(vs, pop_ops(k)) =~= vs.skip(vs.len() - k).reverse()) by {
            assert(popped_values(vs, pop_ops(k)) == vs.skip(vs.len() - (k - 1)).reverse().push(
                vs[vs.len() - k],
            ));
            let l = vs.skip(vs.len() - k).reverse();
            let r = vs.skip(vs.len() - (k - 1)).reverse().push(vs[vs.len() - k]);
            assert forall|i: int| 0 <= i < k implies l[i] == r[i] by {
                assert(l[i] == vs[vs.len() - 1 - i]);
            }
            assert(l =~= r);
        }
    }
}

/// LIFO order: pushing `vs` on an empty stack leaves exactly `vs`,
/// and then popping as many times returns the values newest first and
/// leaves the stack empty, after which a further pop returns nothing.
pub proof fn lemma_lifo_order<T>(vs: Seq<T>)
    ensures
        state_after(Seq::<T>::empty(), push_ops(vs)) == vs,
        popped_values(vs, pop_ops(vs.len())) == vs.reverse(),
        state_after(vs, pop_ops(vs.len())) == Seq::<T>::empty(),
        crate::stack::pop_result(state_after(vs, pop_ops(vs.len()))) is None,
{
    lemma_push_all(Seq::<T>::empty(), vs);
    assert(Seq::<T>::empty() + vs =~= vs);
    lemma_pop_k(vs, vs.len());
    assert(vs.take(0) =~= Seq::<T>::empty());
    assert(vs.skip(0) =~= vs);
}

/// No loss, no duplication: over any history, the values ever popped
/// together with the values still in the stack at the end are exactly
/// the starting contents together with the values ever pushed, as
/// multisets.
pub proof fn lemma_no_loss_no_duplication<T>(s: Seq<T>, ops: Seq<Op<T>>)
    ensures
        popped_values(s, ops).to_multiset().add(state_after(s, ops).to_multiset()) =~= s.to_multiset().add(
            pushed_values(ops).to_multiset(),
        ),
    decreases ops.len(),
{
    broadcast use group_to_multiset_ensures;
    broadcast use vstd::multiset::group_multiset_axioms;
    broadcast use vstd::multiset::group_multiset_properties;

    if ops.len() == 0 {
        assert(popped_values(s, ops).to_multiset().add(state_after(s, ops).to_multiset())
            =~= s.to_multiset().add(pushed_values(ops).to_multiset()));
    } else {
        lemma_no_loss_no_duplication(s, ops.drop_last());
        let before = state_after(s, ops.drop_last());
        let prev_popped = popped_values(s, ops.drop_last());
        let prev_pushed = pushed_values(ops.drop_last());
        let lhs = popped_values(s, ops).to_multiset().add(state_after(s, ops).to_multiset());
        let rhs = s.to_multiset().add(pushed_values(ops).to_multiset());
        match ops.last() {
            Op::Push(v) => {
                assert(state_after(s, ops) == before.push(v));
                assert(pushed_values(ops) == prev_pushed.push(v));
                assert(popped_values(s, ops) == prev_popped);
                assert(state_after(s, ops).to_multiset() =~= before.to_multiset().insert(v));
                assert(pushed_values(ops).to_multiset() =~= prev_pushed.to_multiset().insert(v));
                assert forall|x: T| lhs.count(x) == rhs.count(x) by {
                    assert(prev_popped.to_multiset().add(before.to_multiset()).count(x)
                        == s.to_multiset().add(prev_pushed.to_multiset()).count(x));
                    vstd::multiset::lemma_insert_increases_count_by_1(before.to_multiset(), v);
                    vstd::multiset::lemma_insert_increases_count_by_1(prev_pushed.to_multiset(), v);
                    if x != v {
                        vstd::multiset::lemma_insert_other_elements_unchanged(
                            before.to_multiset(),
                            v,
                            x,
                        );
                        vstd::multiset::lemma_insert_other_elements_unchanged(
                            prev_pushed.to_multiset(),
                            v,
                            x,
                        );
                    }
                }
                assert(lhs =~= rhs);
            }
            Op::Pop => {
                if before.len() > 0 {
                    let l = before.last();
                    let after = state_after(s, ops);
                    assert(after == crate::stack::pop_rest(before));
                    assert(before =~= after.push(l));
                    assert(before.to_multiset() =~= after.to_multiset().insert(l));
                    assert(popped_values(s, ops).to_multiset() =~= prev_popped.to_multiset().insert(
                        l,
                    ));
                    assert forall|x: T| lhs.count(x) == rhs.count(x) by {
                        assert(prev_popped.to_multiset().add(before.to_multiset()).count(x)
                            == s.to_multiset().add(prev_pushed.to_multiset()).count(x));
                        vstd::multiset::lemma_insert_increases_count_by_1(
                            prev_popped.to_multiset(),
                            l,
                        );
                        vstd::multiset::lemma_insert_increases_count_by_1(after.to_multiset(), l);
                        if x != l {
                            vstd::multiset::lemma_insert_other_elements_unchanged(
                                prev_popped.to_multiset(),
                                l,
                                x,
                            );
                            vstd::multiset::lemma_insert_other_elements_unchanged(
                                after.to_multiset(),
                                l,
                                x,
                            );
                        }
                    }
                    assert(lhs =~= rhs);
                } else {
                    assert(state_after(s, ops) == before);
                    assert(popped_values(s, ops) == prev_popped);
                    assert(pushed_values(ops) == prev_pushed);
                }
            }
        }
    }
}

/// Whether some push of the history carries exactly the value `x`.
pub open spec fn was_pushed<T>(ops: Seq<Op<T>>, x: T) -> bool {
    exists|m: int| 0 <= m < ops.len() && ops[m] is Push && push_value(ops[m]) == x
}

/// A value pushed by a prefix of a history was pushed by the history.
proof fn lemma_was_pushed_extend<T>(ops: Seq<Op<T>>, x: T)
    requires
        ops.len() > 0,
        was_pushed(ops.drop_last(), x),
    ensures
        was_pushed(ops, x),
{
    let prev = ops.drop_last();
    let m = choose|m: int| 0 <= m < prev.len() && prev[m] is Push && push_value(prev[m]) == x;
    assert(0 <= m < ops.len() && ops[m] is Push && push_value(ops[m]) == x);
}

/// Per-thread order preservation: when each thread tags its pushes
/// with strictly increasing sequence numbers, then at every moment the
/// stack holds any one thread's values with the most recently pushed
/// nearest the top. Two values of one thread therefore only ever pop
/// in the reverse of their push order. `thread_of` and `tag_of` read
/// the tag a pushed value carries.
pub proof fn lemma_per_thread_order<T>(
    ops: Seq<Op<T>>,
    thread_of: spec_fn(T) -> int,
    tag_of: spec_fn(T) -> int,
)
    requires
        forall|i: int, j: int|
            0 <= i < j < ops.len() && ops[i] is Push && ops[j] is Push && thread_of(
                push_value(ops[i]),
            ) == thread_of(push_value(ops[j])) ==> tag_of(push_value(ops[i])) < tag_of(
                push_value(ops[j]),
            ),
    ensures
        forall|p: int, q: int|
            0 <= p < q < state_after(Seq::<T>::empty(), ops).len() && thread_of(
                #[trigger] state_after(Seq::<T>::empty(), ops)[p],
            ) == thread_of(#[trigger] state_after(Seq::<T>::empty(), ops)[q]) ==> tag_of(
                state_after(Seq::<T>::empty(), ops)[p],
            ) < tag_of(state_after(Seq::<T>::empty(), ops)[q]),
        forall|p: int|
            0 <= p < state_after(Seq::<T>::empty(), ops).len() ==> was_pushed(
                ops,
                #[trigger] state_after(Seq::<T>::empty(), ops)[p],
            ),
    decreases ops.len(),
{
    let e = Seq::<T>::empty();
    if ops.len() == 0 {
    } else {
        let prev_ops = ops.drop_last();
        lemma_per_thread_order(prev_ops, thread_of, tag_of);
        let before = state_after(e, prev_ops);
        let after = state_after(e, ops);
        assert forall|p: int| 0 <= p < after.len() implies was_pushed(
            ops,
            #[trigger] after[p],
        ) by {
            if ops.last() is Push && p == after.len() - 1 {
                assert(after[p] == push_value(ops[ops.len() - 1]));
                assert(0 <= ops.len() - 1 < ops.len() && ops[ops.len() - 1] is Push && push_value(
                    ops[ops.len() - 1],
                ) == after[p]);
            } else {
                if ops.last() is Push {
                    assert(after == before.push(push_value(ops.last())));
                } else if before.len() > 0 {
                    assert(after == before.drop_last());
                } else {
                    assert(after == before);
                }
                assert(0 <= p < before.len());
                assert(after[p] == state_after(e, prev_ops)[p]);
                assert(was_pushed(prev_ops, before[p]));
                lemma_was_pushed_extend(ops, before[p]);
            }
        }
        assert forall|p: int, q: int|
            0 <= p < q < after.len() && thread_of(#[trigger] after[p]) == thread_of(
                #[trigger] after[q],
            ) implies tag_of(after[p]) < tag_of(after[q]) by {
            if ops.last() is Push && q == after.len() - 1 {
                assert(after == before.push(push_value(ops.last())));
                assert(0 <= p < before.len());
                assert(after[p] == state_after(e, prev_ops)[p]);
                assert(was_pushed(prev_ops, before[p]));
                let m = choose|m: int|
                    0 <= m < prev_ops.len() && prev_ops[m] is Push && push_value(prev_ops[m])
                        == before[p];
                assert(ops[m] == prev_ops[m]);
                assert(after[q] == push_value(ops[ops.len() - 1]));
                assert(tag_of(push_value(ops[m])) < tag_of(push_value(ops[ops.len() - 1])));
            } else {
                if ops.last() is Push {
                    assert(after == before.push(push_value(ops.last())));
                } else if before.len() > 0 {
                    assert(after == before.drop_last());
                } else {
                    assert(after == before);
                }
                assert(after[p] == state_after(e, prev_ops)[p]);
                assert(after[q] == state_after(e, prev_ops)[q]);
            }
        }
    }
}

/// Draining after any history pops each thread's values newest first:
/// popping a stack left by a tagged history to the bottom returns, for
/// every single thread, strictly decreasing tags — the reverse of that
/// thread's push order, with none of its values out of place.
pub proof fn lemma_drain_pops_threads_newest_first<T>(
    ops: Seq<Op<T>>,
    thread_of: spec_fn(T) -> int,
    tag_of: spec_fn(T) -> int,
)
    requires
        forall|i: int, j: int|
            0 <= i < j < ops.len() && ops[i] is Push && ops[j] is Push && thread_of(
                push_value(ops[i]),
            ) == thread_of(push_value(ops[j])) ==> tag_of(push_value(ops[i])) < tag_of(
                push_value(ops[j]),
            ),
    ensures
        ({
            let f = state_after(Seq::<T>::empty(), ops);
            let drained = popped_values(f, pop_ops(f.len()));
            forall|p: int, q: int|
                0 <= p < q < drained.len() && thread_of(#[trigger] drained[p]) == thread_of(
                    #[trigger] drained[q],
                ) ==> tag_of(drained[p]) > tag_of(drained[q])
        }),
{
    let f = state_after(Seq::<T>::empty(), ops);
    lemma_per_thread_order(ops, thread_of, tag_of);
    lemma_pop_k(f, f.len());
    assert(f.skip(0) =~= f);
    let drained = popped_values(f, pop_ops(f.len()));
    assert(drained == f.reverse());
    assert forall|p: int, q: int|
        0 <= p < q < drained.len() && thread_of(#[trigger] drained[p]) == thread_of(
            #[trigger] drained[q],
        ) implies tag_of(drained[p]) > tag_of(drained[q]) by {
        assert(drained[p] == f[f.len() - 1 - p]);
        assert(drained[q] == f[f.len() - 1 - q]);
    }
}

} // verus!
