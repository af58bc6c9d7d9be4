//! The scheduler's ready list: which task runs next when the running task
//! yields or quits. Tasks are named by the address of their descriptor.
//! Building task stacks and switching between them belongs to whoever owns
//! the CPU; this module only decides.

use vstd::prelude::*;

verus! {

/// No task appears twice in `q`.
pub open spec fn no_duplicates(q: Seq<usize>) -> bool {
    forall|i: int, j: int| 0 <= i < j < q.len() ==> q[i] != q[j]
}

/// The task handed out from the ready list `q`, and the list left behind:
/// the head if there is one, else the idle task with the list unchanged.
pub open spec fn popped(q: Seq<usize>, idle: usize) -> (usize, Seq<usize>) {
    if q.len() > 0 {
        (q[0], q.drop_first())
    } else {
        (idle, q)
    }
}

/// The task that runs after `current` yields with ready list `q`, and the
/// list left behind: `current` joins the tail and the head is taken.
pub open spec fn yielded(q: Seq<usize>, current: usize) -> (usize, Seq<usize>) {
    let with_current = q.push(current);
    (with_current[0], with_current.drop_first())
}

/// The tasks ready to run, in the order they will run.
pub struct Scheduler {
    ready: Vec<usize>,
}

impl View for Scheduler {
    type V = Seq<usize>;

    closed spec fn view(&self) -> Seq<usize> {
        self.ready@
    }
}

impl Scheduler {
    /// An empty ready list.
    pub fn new() -> (r: Scheduler)
        ensures
            r@ == Seq::<usize>::empty(),
    {
        Scheduler { ready: Vec::new() }
    }

    /// Put `task`, which must not be in the list already, at its tail.
    pub fn add_task_to_ready_list(&mut self, task: usize)
        requires
            !old(self)@.contains(task),
        ensures
            final(self)@ == old(self)@.push(task),
            no_duplicates(old(self)@) ==> no_duplicates(final(self)@),
    {
        self.ready.push(task);
        proof {
            assert forall|i: int, j: int|
                no_duplicates(old(self)@) && 0 <= i < j < self@.len() implies self@[i] != self@[j] by {
                if j == self@.len() - 1 {
                    assert(old(self)@[i] == self@[i]);
                }
            }
        }
    }

    /// Take the task at the head of the list, or hand out `idle` when no
    /// task is ready.
    pub fn pop_next_ready_task(&mut self, idle: usize) -> (r: usize)
        ensures
            (r, final(self)@) == popped(old(self)@, idle),
            no_duplicates(old(self)@) ==> no_duplicates(final(self)@),
    {
        if self.ready.len() > 0 {
            self.ready.remove(0)
        } else {
            idle
        }
    }

    /// `current` yields: it joins the tail of the list and the task at the
    /// head runs next. When the result is `current` itself, nothing needs
    /// switching.
    pub fn yield_current(&mut self, current: usize) -> (r: usize)
        requires
            !old(self)@.contains(current),
        ensures
            (r, final(self)@) == yielded(old(self)@, current),
            no_duplicates(old(self)@) ==> no_duplicates(final(self)@),
    {
        self.add_task_to_ready_list(current);
        self.ready.remove(0)
    }
}

/// A task that yields while no other task is ready keeps running, and the
/// list stays empty.
pub proof fn lemma_yield_alone_keeps_running(current: usize)
    ensures
        yielded(Seq::<usize>::empty(), current) == (current, Seq::<usize>::empty()),
{
    assert(Seq::<usize>::empty().push(current).drop_first() =~= Seq::<usize>::empty());
}

/// Yielding is round robin: the head of the list runs next, and the
/// yielding task waits behind every task that was ready before it.
pub proof fn lemma_yield_round_robin(q: Seq<usize>, current: usize)
    requires
        q.len() > 0,
    ensures
        yielded(q, current) == (q[0], q.drop_first().push(current)),
{
    assert(q.push(current).drop_first() =~= q.drop_first().push(current));
}

/// Tasks leave the list in the order they joined it: after `k` pops from a
/// list that holds at least `k` tasks, the `k`-th pop hands out the task
/// that stood at position `k`.
pub proof fn lemma_ready_tasks_run_in_order(q: Seq<usize>, idle: usize, k: nat)
    requires
        k < q.len(),
    ensures
        popped(q.skip(k as int), idle).0 == q[k as int],
        popped(q.skip(k as int), idle).1 == q.skip((k + 1) as int),
{
    assert(q.skip(k as int).drop_first() =~= q.skip((k + 1) as int));
}

} // verus!
