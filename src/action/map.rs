use super::{Action, Poll};
use std::marker::PhantomData;
use vstd::prelude::*;

verus! {

/// Drives `action`; each output goes through `f`, and the action that `f`
/// builds is driven to its end before `action` is called again.
pub struct MapAction<A, O, F, B> {
    pub action: A,
    pub f: F,
    pub next: Option<B>,
    pub _marker: PhantomData<O>,
}

impl<A, O, F, B> MapAction<A, O, F, B> {
    pub fn new(action: A, f: F) -> (r: Self)
        ensures
            r.action == action,
            r.f == f,
            r.next is None,
    {
        MapAction { action, f, next: None, _marker: PhantomData }
    }
}

/// One call of the source action, made where no continuation is held:
/// an output builds the continuation and reports `Pending`; `Pending` and the
/// end pass through.
pub open spec fn source_step<C, A, O, F, B>(
    a: A,
    f: F,
    input: A::In,
    ctx: C,
    next: MapAction<A, O, F, B>,
    ctx_next: C,
    r: Poll<Option<B::Out>>,
) -> bool where A: Action<C, Out = O>, F: FnMut(O) -> B, B: Action<C, In = ()> {
    &&& next.f == f
    &&& match next.next {
        Some(b) => {
            &&& r == Poll::<Option<B::Out>>::Pending
            &&& exists|o: O|
                #[trigger] a.step(input, ctx, next.action, ctx_next, Poll::Ready(Some(o)))
                    && call_ensures(f, (o,), b)
        },
        None => {
            ||| r == Poll::<Option<B::Out>>::Pending && a.step(
                input,
                ctx,
                next.action,
                ctx_next,
                Poll::Pending,
            )
            ||| r == Poll::<Option<B::Out>>::Ready(None) && a.step(
                input,
                ctx,
                next.action,
                ctx_next,
                Poll::Ready(None),
            )
        },
    }
}

impl<A, O, F, B> MapAction<A, O, F, B> {
    fn poll_source<C>(&mut self, input: A::In, ctx: &mut C) -> (r: Poll<Option<B::Out>>) where
        A: Action<C, Out = O>,
        F: FnMut(O) -> B,
        B: Action<C, In = ()>,

        requires
            old(self).action.wf(),
            super::and_then::builds_wf::<C, O, B, F>(old(self).f),
        ensures
            final(self).action.wf(),
            final(self).next is Some ==> final(self).next->Some_0.wf(),
            source_step(old(self).action, old(self).f, input, *old(ctx), *final(self), *final(ctx), r),
    {
        match self.action.perform(input, ctx) {
            Poll::Ready(Some(out)) => {
                let ghost o = out;
                let b = (self.f)(out);
                assert(call_ensures(self.f, (o,), b));
                self.next = Some(b);
                Poll::Pending
            },
            Poll::Ready(None) => {
                self.next = None;
                Poll::Ready(None)
            },
            Poll::Pending => {
                self.next = None;
                Poll::Pending
            },
        }
    }
}

impl<C, A, O, F, B> Action<C> for MapAction<A, O, F, B> where
    A: Action<C, Out = O>,
    F: FnMut(O) -> B,
    B: Action<C, In = ()>,
 {
    type In = A::In;

    type Out = B::Out;

    open spec fn wf(&self) -> bool {
        &&& self.action.wf()
        &&& super::and_then::builds_wf::<C, O, B, F>(self.f)
        &&& (self.next is Some ==> self.next->Some_0.wf())
    }

    /// Without a continuation: one source step. With one: its outputs and
    /// `Pending` pass through; at its end it is dropped and the source is
    /// called again in the same call.
    open spec fn step(
        &self,
        input: A::In,
        ctx: C,
        next: Self,
        ctx_next: C,
        r: Poll<Option<B::Out>>,
    ) -> bool {
        match self.next {
            None => source_step(self.action, self.f, input, ctx, next, ctx_next, r),
            Some(n) => {
                ||| {
                    &&& next.f == self.f
                    &&& next.action == self.action
                    &&& next.next is Some
                    &&& r != Poll::<Option<B::Out>>::Ready(None)
                    &&& n.step((), ctx, next.next->Some_0, ctx_next, r)
                }
                ||| exists|n2: B, c1: C|
                    #[trigger] n.step((), ctx, n2, c1, Poll::Ready(None)) && source_step(
                        self.action,
                        self.f,
                        input,
                        c1,
                        next,
                        ctx_next,
                        r,
                    )
            },
        }
    }

    fn perform(&mut self, input: A::In, ctx: &mut C) -> (r: Poll<Option<B::Out>>) {
        match self.next.take() {
            Some(mut n) => {
                let rn = n.perform((), ctx);
                match rn {
                    Poll::Ready(None) => self.poll_source(input, ctx),
                    _ => {
                        self.next = Some(n);
                        rn
                    },
                }
            },
            None => self.poll_source(input, ctx),
        }
    }
}

} // verus!
