use super::{Action, Poll};
use crate::{drive_run, drives, pending_run};
use vstd::prelude::*;

verus! {

/// Drives `a` to its end, then `b`.
pub struct Then<A, B> {
    pub a: A,
    pub b: B,
    pub is_next: bool,
}

impl<A, B> Then<A, B> {
    pub fn new(a: A, b: B) -> (r: Self)
        ensures
            r.a == a,
            r.b == b,
            !r.is_next,
    {
        Then { a, b, is_next: false }
    }
}

impl<C, A, B> Action<C> for Then<A, B> where A: Action<C>, B: Action<C, In = A::In, Out = A::Out> {
    type In = A::In;

    type Out = A::Out;

    open spec fn wf(&self) -> bool {
        self.a.wf() && self.b.wf()
    }

    /// Before the switch, `a`'s results pass through unchanged, except its end,
    /// which switches to `b` and reports `Pending`; after it, `b`'s results pass
    /// through unchanged, its end included.
    open spec fn step(
        &self,
        input: A::In,
        ctx: C,
        next: Self,
        ctx_next: C,
        r: Poll<Option<A::Out>>,
    ) -> bool {
        if self.is_next {
            &&& next.is_next
            &&& next.a == self.a
            &&& self.b.step(input, ctx, next.b, ctx_next, r)
        } else {
            &&& next.b == self.b
            &&& if next.is_next {
                &&& r == Poll::<Option<A::Out>>::Pending
                &&& self.a.step(input, ctx, next.a, ctx_next, Poll::Ready(None))
            } else {
                &&& r != Poll::<Option<A::Out>>::Ready(None)
                &&& self.a.step(input, ctx, next.a, ctx_next, r)
            }
        }
    }

    fn perform(&mut self, input: A::In, ctx: &mut C) -> (r: Poll<Option<A::Out>>) {
        if self.is_next {
            self.b.perform(input, ctx)
        } else {
            match self.a.perform(input, ctx) {
                Poll::Ready(Some(out)) => Poll::Ready(Some(out)),
                Poll::Ready(None) => {
                    self.is_next = true;
                    Poll::Pending
                },
                Poll::Pending => Poll::Pending,
            }
        }
    }
}

proof fn lemma_then_pending<C, A, B>(t: Then<A, B>, ctx: C, tm: Then<A, B>, cm: C, k: nat) where
    A: Action<C, In = ()>,
    B: Action<C, In = (), Out = A::Out>,

    requires
        !t.is_next,
        pending_run(t, ctx, tm, cm, k),
    ensures
        !tm.is_next ==> tm.b == t.b && pending_run(t.a, ctx, tm.a, cm, k),
        tm.is_next ==> exists|k1: nat, c1: C|
            #![trigger pending_run(t.b, c1, tm.b, cm, k1)]
            k1 < k && drives(t.a, ctx, tm.a, c1, Poll::Ready(None)) && pending_run(
                t.b,
                c1,
                tm.b,
                cm,
                k1,
            ),
    decreases k,
{
    if k > 0 {
        let (t1, c1) = choose|t1: Then<A, B>, c1: C|
            pending_run(t, ctx, t1, c1, (k - 1) as nat) && #[trigger] t1.step(
                (),
                c1,
                tm,
                cm,
                Poll::Pending,
            );
        lemma_then_pending(t, ctx, t1, c1, (k - 1) as nat);
        if !t1.is_next {
            if tm.is_next {
                assert(pending_run(t.a, ctx, t1.a, c1, (k - 1) as nat) && t1.a.step(
                    (),
                    c1,
                    tm.a,
                    cm,
                    Poll::Ready(None),
                ));
                assert(drives(t.a, ctx, tm.a, cm, Poll::Ready(None)));
                assert(pending_run(t.b, cm, tm.b, cm, 0));
            } else {
                assert(pending_run(t.a, ctx, t1.a, c1, (k - 1) as nat) && t1.a.step(
                    (),
                    c1,
                    tm.a,
                    cm,
                    Poll::Pending,
                ));
            }
        } else {
            let (k1, cx) = choose|k1: nat, cx: C|
                #![trigger pending_run(t.b, cx, t1.b, c1, k1)]
                k1 < k - 1 && drives(t.a, ctx, t1.a, cx, Poll::Ready(None)) && pending_run(
                    t.b,
                    cx,
                    t1.b,
                    c1,
                    k1,
                );
            assert(pending_run(t.b, cx, t1.b, c1, k1) && t1.b.step((), c1, tm.b, cm, Poll::Pending));
            assert(pending_run(t.b, cx, tm.b, cm, k1 + 1));
        }
    }
}

/// Driven one tick at a time, `then(a, b)` is `a` until `a` ends, then `b`.
/// A tick in which `a` does not end shows exactly what a tick of `a` shows,
/// and `b` is untouched. The tick in which `a` ends goes straight on to `b`:
/// it shows what a tick of `b` shows from there, `b`'s own end included. So
/// with `a` making `n` visible steps and `b` making `m`, the ticks show `a`'s
/// steps, then `b`'s, then the end.
pub proof fn lemma_then_ticks<C, A, B>(
    t: Then<A, B>,
    ctx: C,
    t2: Then<A, B>,
    ctx2: C,
    r: Poll<Option<A::Out>>,
) where A: Action<C, In = ()>, B: Action<C, In = (), Out = A::Out>
    requires
        drives(t, ctx, t2, ctx2, r),
    ensures
        !t.is_next && !t2.is_next ==> t2.b == t.b && drives(t.a, ctx, t2.a, ctx2, r),
        !t.is_next && t2.is_next ==> exists|c1: C|
            drives(t.a, ctx, t2.a, c1, Poll::Ready(None)) && #[trigger] drives(
                t.b,
                c1,
                t2.b,
                ctx2,
                r,
            ),
        t.is_next ==> t2.is_next && t2.a == t.a && drives(t.b, ctx, t2.b, ctx2, r),
{
    let (k, tm, cm) = choose|k: nat, tm: Then<A, B>, cm: C|
        #![trigger pending_run(t, ctx, tm, cm, k), tm.step((), cm, t2, ctx2, r)]
        pending_run(t, ctx, tm, cm, k) && tm.step((), cm, t2, ctx2, r);
    if !t.is_next {
        lemma_then_pending(t, ctx, tm, cm, k);
        if !tm.is_next {
            assert(pending_run(t.a, ctx, tm.a, cm, k) && tm.a.step((), cm, t2.a, ctx2, r));
        } else {
            let (k1, c1) = choose|k1: nat, c1: C|
                #![trigger pending_run(t.b, c1, tm.b, cm, k1)]
                k1 < k && drives(t.a, ctx, tm.a, c1, Poll::Ready(None)) && pending_run(
                    t.b,
                    c1,
                    tm.b,
                    cm,
                    k1,
                );
            assert(pending_run(t.b, c1, tm.b, cm, k1) && tm.b.step((), cm, t2.b, ctx2, r));
            assert(drives(t.b, c1, t2.b, ctx2, r));
        }
    } else {
        lemma_then_switched(t, ctx, tm, cm, k);
        assert(pending_run(t.b, ctx, tm.b, cm, k) && tm.b.step((), cm, t2.b, ctx2, r));
    }
}

proof fn lemma_then_switched<C, A, B>(t: Then<A, B>, ctx: C, tm: Then<A, B>, cm: C, k: nat) where
    A: Action<C, In = ()>,
    B: Action<C, In = (), Out = A::Out>,

    requires
        t.is_next,
        pending_run(t, ctx, tm, cm, k),
    ensures
        tm.is_next,
        tm.a == t.a,
        pending_run(t.b, ctx, tm.b, cm, k),
    decreases k,
{
    if k > 0 {
        let (t1, c1) = choose|t1: Then<A, B>, c1: C|
            pending_run(t, ctx, t1, c1, (k - 1) as nat) && #[trigger] t1.step(
                (),
                c1,
                tm,
                cm,
                Poll::Pending,
            );
        lemma_then_switched(t, ctx, t1, c1, (k - 1) as nat);
        assert(pending_run(t.b, ctx, t1.b, c1, (k - 1) as nat) && t1.b.step(
            (),
            c1,
            tm.b,
            cm,
            Poll::Pending,
        ));
    }
}

proof fn lemma_then_switched_run<C, A, B>(
    t: Then<A, B>,
    ctx: C,
    t2: Then<A, B>,
    ctx2: C,
    rs: Seq<Poll<Option<A::Out>>>,
) where A: Action<C, In = ()>, B: Action<C, In = (), Out = A::Out>
    requires
        t.is_next,
        drive_run(t, ctx, t2, ctx2, rs),
    ensures
        t2.is_next,
        t2.a == t.a,
        drive_run(t.b, ctx, t2.b, ctx2, rs),
    decreases rs.len(),
{
    if rs.len() > 0 {
        let (t1, c1) = choose|t1: Then<A, B>, c1: C|
            #[trigger] drives(t, ctx, t1, c1, rs[0]) && drive_run(t1, c1, t2, ctx2, rs.skip(1));
        lemma_then_ticks(t, ctx, t1, c1, rs[0]);
        lemma_then_switched_run(t1, c1, t2, ctx2, rs.skip(1));
        assert(drives(t.b, ctx, t1.b, c1, rs[0]) && drive_run(t1.b, c1, t2.b, ctx2, rs.skip(1)));
    }
}

/// Over any number of ticks, `then(a, b)` shows exactly `a`'s ticks and then
/// `b`'s: either `a` has not ended, and the ticks are `a`'s ticks with `b`
/// untouched; or the ticks split at some `n`: the first `n` are `a`'s ticks,
/// `a` ends at the start of tick `n + 1`, and from that tick on the ticks are
/// `b`'s ticks, started from the context `a` left, `b`'s own end included.
pub proof fn lemma_then_run<C, A, B>(
    t: Then<A, B>,
    ctx: C,
    t2: Then<A, B>,
    ctx2: C,
    rs: Seq<Poll<Option<A::Out>>>,
) where A: Action<C, In = ()>, B: Action<C, In = (), Out = A::Out>
    requires
        !t.is_next,
        drive_run(t, ctx, t2, ctx2, rs),
    ensures
        !t2.is_next ==> t2.b == t.b && drive_run(t.a, ctx, t2.a, ctx2, rs),
        t2.is_next ==> exists|n: int, a_mid: A, c_a: C, c_end: C|
            #![trigger drive_run(t.a, ctx, a_mid, c_a, rs.take(n)), drive_run(t.b, c_end, t2.b, ctx2, rs.skip(n))]
            0 <= n < rs.len() && drive_run(t.a, ctx, a_mid, c_a, rs.take(n)) && drives(
                a_mid,
                c_a,
                t2.a,
                c_end,
                Poll::Ready(None),
            ) && drive_run(t.b, c_end, t2.b, ctx2, rs.skip(n)),
    decreases rs.len(),
{
    if rs.len() > 0 {
        let (t1, c1) = choose|t1: Then<A, B>, c1: C|
            #[trigger] drives(t, ctx, t1, c1, rs[0]) && drive_run(t1, c1, t2, ctx2, rs.skip(1));
        lemma_then_ticks(t, ctx, t1, c1, rs[0]);
        if !t1.is_next {
            lemma_then_run(t1, c1, t2, ctx2, rs.skip(1));
            if !t2.is_next {
                assert(drives(t.a, ctx, t1.a, c1, rs[0]) && drive_run(
                    t1.a,
                    c1,
                    t2.a,
                    ctx2,
                    rs.skip(1),
                ));
            } else {
                let (n, a_mid, c_a, c_end) = choose|n: int, a_mid: A, c_a: C, c_end: C|
                    #![trigger drive_run(t1.a, c1, a_mid, c_a, rs.skip(1).take(n)), drive_run(t1.b, c_end, t2.b, ctx2, rs.skip(1).skip(n))]
                    0 <= n < rs.skip(1).len() && drive_run(t1.a, c1, a_mid, c_a, rs.skip(1).take(n))
                        && drives(a_mid, c_a, t2.a, c_end, Poll::Ready(None)) && drive_run(
                        t1.b,
                        c_end,
                        t2.b,
                        ctx2,
                        rs.skip(1).skip(n),
                    );
                assert(rs.take(n + 1)[0] == rs[0]);
                assert(rs.take(n + 1).skip(1) =~= rs.skip(1).take(n));
                assert(rs.skip(n + 1) =~= rs.skip(1).skip(n));
                assert(drives(t.a, ctx, t1.a, c1, rs.take(n + 1)[0]) && drive_run(
                    t1.a,
                    c1,
                    a_mid,
                    c_a,
                    rs.take(n + 1).skip(1),
                ));
                assert(drive_run(t.a, ctx, a_mid, c_a, rs.take(n + 1)));
                assert(drive_run(t.b, c_end, t2.b, ctx2, rs.skip(n + 1)));
            }
        } else {
            let c_end = choose|c_end: C|
                drives(t.a, ctx, t1.a, c_end, Poll::Ready(None)) && #[trigger] drives(
                    t.b,
                    c_end,
                    t1.b,
                    c1,
                    rs[0],
                );
            lemma_then_switched_run(t1, c1, t2, ctx2, rs.skip(1));
            assert(drive_run(t.b, c_end, t2.b, ctx2, rs)) by {
                assert(drives(t.b, c_end, t1.b, c1, rs[0]) && drive_run(
                    t1.b,
                    c1,
                    t2.b,
                    ctx2,
                    rs.skip(1),
                ));
            }
            assert(rs.take(0) =~= Seq::<Poll<Option<A::Out>>>::empty());
            assert(rs.skip(0) =~= rs);
            assert(drive_run(t.a, ctx, t.a, ctx, rs.take(0)));
        }
    }
}

} // verus!
