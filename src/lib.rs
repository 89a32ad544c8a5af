//! Composable, incrementally driven actions and a per-owner FIFO sequencer.
use std::collections::VecDeque;
use vstd::prelude::*;

pub mod action;

use action::{Action, Poll};

verus! {

/// `k` calls of `a` with input `()`, each reporting `Pending`, take it from
/// `(a, ctx)` to `(a2, ctx2)`.
pub open spec fn pending_run<C, A: Action<C, In = ()>>(a: A, ctx: C, a2: A, ctx2: C, k: nat) -> bool
    decreases k,
{
    if k == 0 {
        a2 == a && ctx2 == ctx
    } else {
        exists|a1: A, c1: C|
            pending_run(a, ctx, a1, c1, (k - 1) as nat) && #[trigger] a1.step(
                (),
                c1,
                a2,
                ctx2,
                Poll::Pending,
            )
    }
}

/// Calling `a` until it reports something other than `Pending` takes it from
/// `(a, ctx)` to `(a2, ctx2)` and ends with `r`.
pub open spec fn drives<C, A: Action<C, In = ()>>(
    a: A,
    ctx: C,
    a2: A,
    ctx2: C,
    r: Poll<Option<A::Out>>,
) -> bool {
    &&& r != Poll::<Option<A::Out>>::Pending
    &&& exists|k: nat, am: A, cm: C|
        #![trigger pending_run(a, ctx, am, cm, k), am.step((), cm, a2, ctx2, r)]
        pending_run(a, ctx, am, cm, k) && am.step((), cm, a2, ctx2, r)
}

/// Ticks that each drive `a` as in [`drives`], handing the context on,
/// take it from `(a, ctx)` to `(a2, ctx2)`; `rs` holds what each tick ended
/// with.
pub open spec fn drive_run<C, A: Action<C, In = ()>>(
    a: A,
    ctx: C,
    a2: A,
    ctx2: C,
    rs: Seq<Poll<Option<A::Out>>>,
) -> bool
    decreases rs.len(),
{
    if rs.len() == 0 {
        a2 == a && ctx2 == ctx
    } else {
        exists|a1: A, c1: C|
            #[trigger] drives(a, ctx, a1, c1, rs[0]) && drive_run(a1, c1, a2, ctx2, rs.skip(1))
    }
}

/// What driving the front of the running queue came to.
#[derive(Debug, Clone, Copy, PartialEq, Eq)]
pub enum Tick {
    /// No action was running.
    Idle,
    /// The front action made a visible step and stays at the front.
    Yielded,
    /// The front action ended and left the queue.
    Finished,
    /// The front action kept reporting `Pending` past the retry budget; it
    /// stays at the front, to be driven on.
    Stalled,
}

/// One owner's queue of actions: `waiting` holds the actions pushed and not
/// yet started, in order; `running` holds the started ones, of which only the
/// front is ever driven.
pub struct Sequencer<A> {
    waiting: VecDeque<A>,
    running: VecDeque<A>,
}

impl<A> Sequencer<A> {
    pub closed spec fn waiting(&self) -> Seq<A> {
        self.waiting@
    }

    pub closed spec fn running(&self) -> Seq<A> {
        self.running@
    }

    pub fn new() -> (r: Self)
        ensures
            r.waiting() == Seq::<A>::empty(),
            r.running() == Seq::<A>::empty(),
    {
        Sequencer { waiting: VecDeque::new(), running: VecDeque::new() }
    }

    /// Appends `action` to the waiting queue.
    pub fn push(&mut self, action: A)
        ensures
            final(self).waiting() == old(self).waiting().push(action),
            final(self).running() == old(self).running(),
    {
        self.waiting.push_back(action);
    }

    /// Appends a boxed action to the waiting queue.
    pub fn push_boxed(&mut self, action: Box<A>)
        ensures
            final(self).waiting() == old(self).waiting().push(*action),
            final(self).running() == old(self).running(),
    {
        self.push(*action);
    }

    /// Moves every action waiting in `other`, in order, to the back of this
    /// waiting queue.
    pub fn append_waiting(&mut self, other: &mut Self)
        ensures
            final(self).waiting() == old(self).waiting() + old(other).waiting(),
            final(self).running() == old(self).running(),
            final(other).waiting() == Seq::<A>::empty(),
            final(other).running() == old(other).running(),
    {
        while other.waiting.len() > 0
            invariant
                self.waiting@ + other.waiting@ == old(self).waiting@ + old(other).waiting@,
                self.running@ == old(self).running@,
                other.running@ == old(other).running@,
            decreases other.waiting@.len(),
        {
            let ghost w = other.waiting@;
            let a = other.waiting.pop_front().unwrap();
            proof {
                assert(w =~= seq![a] + other.waiting@);
                assert(self.waiting@.push(a) + other.waiting@ =~= self.waiting@ + w);
            }
            self.waiting.push_back(a);
        }
        proof {
            assert(self.waiting@ + other.waiting@ =~= self.waiting@);
        }
    }

    /// The number of actions waiting to start.
    pub fn waiting_len(&self) -> (r: usize)
        ensures
            r == self.waiting().len(),
    {
        self.waiting.len()
    }

    /// The number of started actions, the one being driven included.
    pub fn running_len(&self) -> (r: usize)
        ensures
            r == self.running().len(),
    {
        self.running.len()
    }

    /// Moves every waiting action, in order, to the back of the running queue.
    pub fn promote(&mut self)
        ensures
            final(self).waiting() == Seq::<A>::empty(),
            final(self).running() == old(self).running() + old(self).waiting(),
    {
        while self.waiting.len() > 0
            invariant
                self.running@ + self.waiting@ == old(self).running@ + old(self).waiting@,
            decreases self.waiting@.len(),
        {
            let ghost w = self.waiting@;
            let a = self.waiting.pop_front().unwrap();
            proof {
                assert(w =~= seq![a] + self.waiting@);
                assert(self.running@.push(a) + self.waiting@ =~= self.running@ + w);
            }
            self.running.push_back(a);
        }
        proof {
            assert(self.running@ + self.waiting@ =~= self.running@);
        }
    }
}

impl<A> Sequencer<A> {
    /// Every queued action may be performed.
    pub open spec fn wf<C>(&self) -> bool where A: Action<C, In = (), Out = ()> {
        all_wf(self.waiting()) && all_wf(self.running())
    }

    /// What one call of [`Sequencer::drive_front`] with retry budget `budget`
    /// does: see [`front_driven`]; the waiting queue is left alone.
    pub open spec fn drives_front<C>(
        &self,
        ctx: C,
        next: Self,
        ctx_next: C,
        budget: usize,
        r: Tick,
    ) -> bool where A: Action<C, In = (), Out = ()> {
        &&& next.waiting() == self.waiting()
        &&& front_driven(self.running(), ctx, next.running(), ctx_next, budget, r)
    }

    /// What one call of [`Sequencer::tick`] does: every waiting action moves,
    /// in order, to the back of the running queue; then, if an action was
    /// running when the tick began, the front is driven as in
    /// [`front_driven`]. An action that was only waiting is not called.
    pub open spec fn ticks<C>(
        &self,
        ctx: C,
        next: Self,
        ctx_next: C,
        budget: usize,
        r: Tick,
    ) -> bool where A: Action<C, In = (), Out = ()> {
        let run = self.running() + self.waiting();
        &&& next.waiting() == Seq::<A>::empty()
        &&& if self.running().len() == 0 {
            r == Tick::Idle && next.running() == run && ctx_next == ctx
        } else {
            front_driven(run, ctx, next.running(), ctx_next, budget, r)
        }
    }
}

impl<A> Sequencer<A> {
    /// Drives the front of the running queue: calls it with `()` until it
    /// makes a visible step or ends, accepting at most `budget + 1` reports of
    /// `Pending` before handing control back.
    pub fn drive_front<C>(&mut self, ctx: &mut C, budget: usize) -> (r: Tick) where
        A: Action<C, In = (), Out = ()>,

        requires
            old(self).wf::<C>(),
        ensures
            final(self).wf::<C>(),
            old(self).drives_front(*old(ctx), *final(self), *final(ctx), budget, r),
    {
        if self.running.len() == 0 {
            return Tick::Idle;
        }
        let ghost run = self.running@;
        let ghost ctx0 = *ctx;
        let mut a = self.running.pop_front().unwrap();
        assert(run.skip(1) =~= self.running@);
        assert(a.wf()) by {
            assert(run[0] == a);
            assert(old(self).running()[0].wf());
        }
        let mut left = budget;
        let ghost mut k: nat = 0;
        loop
            invariant
                a.wf(),
                run.len() > 0,
                self.running@ == run.skip(1),
                self.waiting@ == old(self).waiting@,
                old(self).running@ == run,
                old(self).wf::<C>(),
                left <= budget,
                k == budget - left,
                pending_run(run[0], ctx0, a, *ctx, k),
                ctx0 == *old(ctx),
            decreases left,
        {
            let ghost a0 = a;
            let ghost c0 = *ctx;
            let r = a.perform((), ctx);
            proof {
                assert(pending_run(run[0], ctx0, a0, c0, k) && a0.step((), c0, a, *ctx, r));
            }
            match r {
                Poll::Ready(Some(v)) => {
                    proof {
                        assert(drives(run[0], ctx0, a, *ctx, Poll::Ready(Some(v))));
                    }
                    self.running.push_front(a);
                    proof {
                        lemma_requeue_wf(run, a);
                        assert(self.running@ =~= seq![a] + run.skip(1));
                        assert(self.running@.skip(1) =~= run.skip(1));
                        assert(self.running()[0] == a);
                        assert(self.waiting() == old(self).waiting());
                    }
                    return Tick::Yielded;
                },
                Poll::Ready(None) => {
                    proof {
                        assert(drives(run[0], ctx0, a, *ctx, Poll::Ready(None)));
                        lemma_requeue_wf(run, a);
                        assert(self.waiting() == old(self).waiting());
                    }
                    return Tick::Finished;
                },
                Poll::Pending => {
                    proof {
                        assert(pending_run(run[0], ctx0, a, *ctx, k + 1));
                    }
                    if left == 0 {
                        self.running.push_front(a);
                        proof {
                            lemma_requeue_wf(run, a);
                            assert(self.running@ =~= seq![a] + run.skip(1));
                        assert(self.running@.skip(1) =~= run.skip(1));
                        assert(self.running()[0] == a);
                            assert(self.waiting() == old(self).waiting());
                        }
                        return Tick::Stalled;
                    }
                    left = left - 1;
                    proof {
                        k = k + 1;
                    }
                },
            }
        }
    }

    /// One tick of this owner: promotes the waiting actions, then drives the
    /// action that was at the front when the tick began, if there was one.
    pub fn tick<C>(&mut self, ctx: &mut C, budget: usize) -> (r: Tick) where
        A: Action<C, In = (), Out = ()>,

        requires
            old(self).wf::<C>(),
        ensures
            final(self).wf::<C>(),
            old(self).ticks(*old(ctx), *final(self), *final(ctx), budget, r),
    {
        let started = self.running.len() > 0;
        self.promote();
        proof {
            lemma_concat_wf(old(self).running(), old(self).waiting());
        }
        if started {
            self.drive_front(ctx, budget)
        } else {
            Tick::Idle
        }
    }
}

/// Every action of `s` may be performed.
pub open spec fn all_wf<C, A: Action<C>>(s: Seq<A>) -> bool {
    forall|i: int| 0 <= i < s.len() ==> (#[trigger] s[i]).wf()
}

/// Taking the front off a queue of well-formed actions, and putting a
/// well-formed one back in its place, keeps every action well-formed.
proof fn lemma_requeue_wf<C, A: Action<C>>(run: Seq<A>, a: A)
    requires
        run.len() > 0,
        all_wf(run),
        a.wf(),
    ensures
        all_wf(run.skip(1)),
        all_wf(seq![a] + run.skip(1)),
{
    assert forall|i: int| 0 <= i < run.len() - 1 implies (#[trigger] run.skip(1)[i]).wf() by {
        assert(run.skip(1)[i] == run[i + 1]);
    }
    let q = seq![a] + run.skip(1);
    assert forall|i: int| 0 <= i < q.len() implies (#[trigger] q[i]).wf() by {
        if i > 0 {
            assert(q[i] == run.skip(1)[i - 1]);
        }
    }
}

proof fn lemma_concat_wf<C, A: Action<C>>(s: Seq<A>, t: Seq<A>)
    requires
        all_wf(s),
        all_wf(t),
    ensures
        all_wf(s + t),
{
    assert forall|i: int| 0 <= i < (s + t).len() implies (#[trigger] (s + t)[i]).wf() by {
        if i >= s.len() {
            assert((s + t)[i] == t[i - s.len()]);
        }
    }
}

/// Driving the front of the queue `run` turns it into `after`: the front is
/// called until it makes a visible step (it stays, as it now is) or ends (it
/// leaves), or until it has reported `Pending` `budget + 1` times (it stays);
/// the rest of the queue is untouched. With no front, nothing happens.
pub open spec fn front_driven<C, A: Action<C, In = (), Out = ()>>(
    run: Seq<A>,
    ctx: C,
    after: Seq<A>,
    ctx_next: C,
    budget: usize,
    r: Tick,
) -> bool {
    if run.len() == 0 {
        r == Tick::Idle && after == run && ctx_next == ctx
    } else {
        match r {
            Tick::Yielded => {
                &&& after.len() == run.len()
                &&& after.skip(1) == run.skip(1)
                &&& exists|v: A::Out| drives(run[0], ctx, after[0], ctx_next, Poll::Ready(Some(v)))
            },
            Tick::Finished => {
                &&& after == run.skip(1)
                &&& exists|a2: A| drives(run[0], ctx, a2, ctx_next, Poll::Ready(None))
            },
            Tick::Stalled => {
                &&& after.len() == run.len()
                &&& after.skip(1) == run.skip(1)
                &&& pending_run(run[0], ctx, after[0], ctx_next, (budget + 1) as nat)
            },
            Tick::Idle => false,
        }
    }
}

impl<A> Default for Sequencer<A> {
    fn default() -> (r: Self)
        ensures
            r.waiting() == Seq::<A>::empty(),
            r.running() == Seq::<A>::empty(),
    {
        Sequencer::new()
    }
}

/// Actions run one at a time, in the order they were pushed. In a tick only
/// the front of the running queue is called: every other started action and
/// every waiting one is carried over untouched, in order, behind it. The
/// action behind the front moves up only in a tick where the front was driven
/// to its end; and an action pushed to an idle sequencer is not called in the
/// tick that starts it.
pub proof fn lemma_fifo<C, A: Action<C, In = (), Out = ()>>(
    s: Sequencer<A>,
    ctx: C,
    next: Sequencer<A>,
    ctx_next: C,
    budget: usize,
    r: Tick,
)
    requires
        s.ticks(ctx, next, ctx_next, budget, r),
    ensures
        ({
            let queue = s.running() + s.waiting();
            &&& next.waiting() == Seq::<A>::empty()
            &&& s.running().len() == 0 ==> r == Tick::Idle && next.running() == queue && ctx_next
                == ctx
            &&& s.running().len() > 0 && r != Tick::Finished ==> next.running().len() == queue.len()
                && next.running().skip(1) == queue.skip(1)
            &&& r == Tick::Finished ==> next.running() == queue.skip(1) && exists|a2: A|
                drives(queue[0], ctx, a2, ctx_next, Poll::Ready(None))
        }),
{
    if s.running().len() > 0 {
        assert((s.running() + s.waiting())[0] == s.running()[0]);
    }
}

/// `rs.len()` ticks with retry budget `budget`, each handing its context on
/// to the next, take the sequencer from `(s, ctx)` to `(s2, ctx2)`; `rs` holds
/// what each tick reported.
pub open spec fn tick_run<C, A: Action<C, In = (), Out = ()>>(
    s: Sequencer<A>,
    ctx: C,
    budget: usize,
    s2: Sequencer<A>,
    ctx2: C,
    rs: Seq<Tick>,
) -> bool
    decreases rs.len(),
{
    if rs.len() == 0 {
        s2 == s && ctx2 == ctx
    } else {
        exists|s1: Sequencer<A>, c1: C|
            #[trigger] s.ticks(ctx, s1, c1, budget, rs[0]) && tick_run(
                s1,
                c1,
                budget,
                s2,
                ctx2,
                rs.skip(1),
            )
    }
}

/// Over any number of ticks, the second action in line is not touched until
/// the first has ended: as long as no tick has reported that the front
/// finished, the action second in line (counting started ones, then waiting
/// ones, in order) is still second and still exactly as it was, so it has
/// received no call.
pub proof fn lemma_fifo_run<C, A: Action<C, In = (), Out = ()>>(
    s: Sequencer<A>,
    ctx: C,
    budget: usize,
    s2: Sequencer<A>,
    ctx2: C,
    rs: Seq<Tick>,
)
    requires
        tick_run(s, ctx, budget, s2, ctx2, rs),
        (s.running() + s.waiting()).len() >= 2,
        forall|i: int| 0 <= i < rs.len() ==> #[trigger] rs[i] != Tick::Finished,
    ensures
        (s2.running() + s2.waiting()).len() >= 2,
        (s2.running() + s2.waiting())[1] == (s.running() + s.waiting())[1],
    decreases rs.len(),
{
    if rs.len() > 0 {
        let (s1, c1) = choose|s1: Sequencer<A>, c1: C|
            #[trigger] s.ticks(ctx, s1, c1, budget, rs[0]) && tick_run(
                s1,
                c1,
                budget,
                s2,
                ctx2,
                rs.skip(1),
            );
        let q = s.running() + s.waiting();
        assert(rs[0] != Tick::Finished);
        assert(s1.running() + s1.waiting() =~= s1.running());
        if s.running().len() > 0 {
            assert(q[0] == s.running()[0]);
            assert(s1.running().skip(1)[0] == q.skip(1)[0]);
        }
        assert forall|i: int| 0 <= i < rs.skip(1).len() implies #[trigger] rs.skip(1)[i]
            != Tick::Finished by {
            assert(rs.skip(1)[i] == rs[i + 1]);
        }
        lemma_fifo_run(s1, c1, budget, s2, ctx2, rs.skip(1));
    }
}

} // verus!
