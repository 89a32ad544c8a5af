use super::{Action, Poll};
use vstd::prelude::*;

verus! {

/// Drives `a` until its first output, then the action that `f` builds from it,
/// with the same input, to its end.
pub struct AndThen<A, F, B> {
    pub a: A,
    pub f: F,
    pub next: Option<B>,
}

impl<A, F, B> AndThen<A, F, B> {
    pub fn new(a: A, f: F) -> (r: Self)
        ensures
            r.a == a,
            r.f == f,
            r.next is None,
    {
        AndThen { a, f, next: None }
    }
}

/// `f` accepts every value of `T` and builds only well-formed actions.
pub open spec fn builds_wf<C, T, B: Action<C>, F: FnMut(T) -> B>(f: F) -> bool {
    &&& forall|o: T| call_requires(f, (o,))
    &&& forall|o: T, b: B| call_ensures(f, (o,), b) ==> b.wf()
}

impl<C, A, F, B> Action<C> for AndThen<A, F, B> where
    A: Action<C>,
    F: FnMut(A::Out) -> B,
    B: Action<C, In = A::In>,
 {
    type In = A::In;

    type Out = B::Out;

    open spec fn wf(&self) -> bool {
        &&& self.a.wf()
        &&& builds_wf::<C, A::Out, B, F>(self.f)
        &&& (self.next is Some ==> self.next->Some_0.wf())
    }

    /// Without a continuation: `a`'s first output builds one and reports
    /// `Pending`; `a`'s `Pending` and end pass through. With one: its results,
    /// its end included, pass through.
    open spec fn step(
        &self,
        input: A::In,
        ctx: C,
        next: Self,
        ctx_next: C,
        r: Poll<Option<B::Out>>,
    ) -> bool {
        &&& next.f == self.f
        &&& match self.next {
            Some(n) => {
                &&& next.a == self.a
                &&& next.next is Some
                &&& n.step(input, ctx, next.next->Some_0, ctx_next, r)
            },
            None => match next.next {
                Some(b) => {
                    &&& r == Poll::<Option<B::Out>>::Pending
                    &&& exists|o: A::Out|
                        #[trigger] self.a.step(input, ctx, next.a, ctx_next, Poll::Ready(Some(o)))
                            && call_ensures(self.f, (o,), b)
                },
                None => {
                    ||| r == Poll::<Option<B::Out>>::Pending && self.a.step(
                        input,
                        ctx,
                        next.a,
                        ctx_next,
                        Poll::Pending,
                    )
                    ||| r == Poll::<Option<B::Out>>::Ready(None) && self.a.step(
                        input,
                        ctx,
                        next.a,
                        ctx_next,
                        Poll::Ready(None),
                    )
                },
            },
        }
    }

    fn perform(&mut self, input: A::In, ctx: &mut C) -> (r: Poll<Option<B::Out>>) {
        match self.next.take() {
            Some(mut n) => {
                let r = n.perform(input, ctx);
                self.next = Some(n);
                r
            },
            None => match self.a.perform(input, ctx) {
                Poll::Ready(Some(out)) => {
                    let ghost o = out;
                    let b = (self.f)(out);
                    assert(call_ensures(self.f, (o,), b));
                    self.next = Some(b);
                    Poll::Pending
                },
                Poll::Ready(None) => Poll::Ready(None),
                Poll::Pending => Poll::Pending,
            },
        }
    }
}

} // verus!
