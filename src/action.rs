//! The action interface, its leaf constructors and the bridge that resolves
//! an action's context from a larger store.
use std::marker::PhantomData;
use vstd::prelude::*;

pub mod and_then;
pub mod map;
pub mod then;

pub use self::and_then::AndThen;
pub use self::map::MapAction;
pub use self::then::Then;

verus! {

/// What one call of [`Action::perform`] reports.
///
/// `Ready(Some(v))`: a visible step; the caller yields until the next tick.
/// `Ready(None)`: the action is exhausted.
/// `Pending`: internal progress only; the caller calls again at once.
#[derive(Debug, PartialEq, Eq)]
pub enum Poll<T> {
    Ready(T),
    Pending,
}

/// A unit of deferred work, driven one call at a time against a context `C`.
pub trait Action<C>: Sized {
    type In;

    type Out;

    /// The condition under which the action may be performed; every call
    /// keeps it. An action that does not say holds it always.
    open spec fn wf(&self) -> bool {
        true
    }

    /// What one call does: from state `self` and context `ctx`, with `input`,
    /// to state `next` and context `ctx_next`, reporting `r`. An action that
    /// does not say promises nothing.
    open spec fn step(
        &self,
        input: Self::In,
        ctx: C,
        next: Self,
        ctx_next: C,
        r: Poll<Option<Self::Out>>,
    ) -> bool {
        true
    }

    fn perform(&mut self, input: Self::In, ctx: &mut C) -> (r: Poll<Option<Self::Out>>)
        requires
            old(self).wf(),
        ensures
            final(self).wf(),
            old(self).step(input, *old(ctx), *final(self), *final(ctx), r),
    ;
}

/// Drives `a` until its first output, then the action that `f` builds from it,
/// with the same input, to its end.
pub fn and_then<C, A, F, B>(a: A, f: F) -> (r: AndThen<A, F, B>) where
    A: Action<C>,
    F: FnMut(A::Out) -> B,
    B: Action<C, In = A::In>,

    ensures
        r.a == a,
        r.f == f,
        r.next is None,
{
    AndThen::new(a, f)
}

/// Runs `f` on each output of `a` and drives the action it builds to its end
/// before `a` is called again.
pub fn map<C, A, F, B>(a: A, f: F) -> (r: MapAction<A, A::Out, F, B>) where
    A: Action<C>,
    F: FnMut(A::Out) -> B,
    B: Action<C, In = ()>,

    ensures
        r.action == a,
        r.f == f,
        r.next is None,
{
    MapAction::new(a, f)
}

/// Drives `a` to its end, then `b`.
pub fn then<C, A, B>(a: A, b: B) -> (r: Then<A, B>) where
    A: Action<C>,
    B: Action<C, In = A::In, Out = A::Out>,

    ensures
        r.a == a,
        r.b == b,
        !r.is_next,
{
    Then::new(a, b)
}

/// `f` accepts every input and context.
pub open spec fn callable<C, I, O, F: FnMut(I, &mut C) -> O>(f: F) -> bool {
    forall|i: I, c: &mut C| call_requires(f, (i, c))
}

/// Wraps `f` as a one-shot action.
pub fn from_fn<C, I, O, F: FnMut(I, &mut C) -> O>(f: F) -> (r: FromFn<F, I, O>)
    ensures
        r.f == f,
        !r.is_done,
{
    FromFn { f, is_done: false, _marker: PhantomData }
}

/// A one-shot action: the first call runs `f`, every later call reports the end.
pub struct FromFn<F, I, O> {
    pub f: F,
    pub is_done: bool,
    pub _marker: PhantomData<(I, O)>,
}

impl<C, I, O, F: FnMut(I, &mut C) -> O> Action<C> for FromFn<F, I, O> {
    type In = I;

    type Out = O;

    open spec fn wf(&self) -> bool {
        callable(self.f)
    }

    open spec fn step(&self, input: I, ctx: C, next: Self, ctx_next: C, r: Poll<Option<O>>) -> bool {
        if self.is_done {
            r == Poll::<Option<O>>::Ready(None) && next == *self && ctx_next == ctx
        } else {
            &&& next.is_done
            &&& next.f == self.f
            &&& next._marker == self._marker
            &&& exists|o: O, m: &mut C|
                #[trigger] call_ensures(self.f, (input, m), o) && mut_ref_current(m) == ctx
                    && r == Poll::Ready(Some(o))
        }
    }

    fn perform(&mut self, input: I, ctx: &mut C) -> (r: Poll<Option<O>>) {
        if self.is_done {
            Poll::Ready(None)
        } else {
            self.is_done = true;
            Poll::Ready(Some((self.f)(input, ctx)))
        }
    }
}

} // verus!

verus! {

/// The elapsed-time reading that interpolation consumes, in the host's unit
/// (one tick, a microsecond, ...).
#[derive(Debug, Clone, Copy, PartialEq, Eq)]
pub struct Clock {
    pub elapsed: u64,
}

/// A value that can be interpolated between two ends.
pub trait Interpolate: Sized {
    /// The value at fraction `num / den` of the way from `from` to `to`.
    spec fn interpolated(from: Self, to: Self, num: u64, den: u64) -> Self;

    fn interpolate(from: &Self, to: &Self, num: u64, den: u64) -> (r: Self)
        requires
            num < den,
        ensures
            r == Self::interpolated(*from, *to, num, den),
    ;
}

/// Linear interpolation on integers, rounded toward `from`.
pub open spec fn lerp_int(from: int, to: int, num: int, den: int) -> int {
    if from <= to {
        from + (to - from) * num / den
    } else {
        from - (from - to) * num / den
    }
}

proof fn lemma_scaled_below(d: int, num: int, den: int)
    requires
        0 <= d,
        0 <= num < den,
    ensures
        0 <= d * num / den <= d,
{
    assert(0 <= d * num) by (nonlinear_arith)
        requires
            0 <= d,
            0 <= num,
    ;
    assert(d * num <= d * den) by (nonlinear_arith)
        requires
            0 <= d,
            num < den,
    ;
    assert(d * num / den <= d * den / den) by (nonlinear_arith)
        requires
            d * num <= d * den,
            0 < den,
    ;
    assert(d * den / den == d) by (nonlinear_arith)
        requires
            0 < den,
    ;
    assert(0 <= d * num / den) by (nonlinear_arith)
        requires
            0 <= d * num,
            0 < den,
    ;
}

impl Interpolate for i32 {
    open spec fn interpolated(from: i32, to: i32, num: u64, den: u64) -> i32 {
        lerp_int(from as int, to as int, num as int, den as int) as i32
    }

    fn interpolate(from: &i32, to: &i32, num: u64, den: u64) -> (r: i32) {
        let a = *from as i128;
        let b = *to as i128;
        if a <= b {
            proof {
                lemma_scaled_below(b - a, num as int, den as int);
                assert((b - a) * (num as int) <= (b - a) * (u64::MAX as int)) by (nonlinear_arith)
                    requires
                        0 <= b - a,
                        num <= u64::MAX,
                ;
                assert((b - a) * (u64::MAX as int) <= 0x1_0000_0000 * (u64::MAX as int))
                    by (nonlinear_arith)
                    requires
                        0 <= b - a <= 0x1_0000_0000,
                ;
            }
            let d = (b - a) * (num as i128) / (den as i128);
            assert(a <= a + d <= b);
            (a + d) as i32
        } else {
            proof {
                lemma_scaled_below(a - b, num as int, den as int);
                assert((a - b) * (num as int) <= (a - b) * (u64::MAX as int)) by (nonlinear_arith)
                    requires
                        0 <= a - b,
                        num <= u64::MAX,
                ;
                assert((a - b) * (u64::MAX as int) <= 0x1_0000_0000 * (u64::MAX as int))
                    by (nonlinear_arith)
                    requires
                        0 <= a - b <= 0x1_0000_0000,
                ;
            }
            let d = (a - b) * (num as i128) / (den as i128);
            assert(b <= a - d <= a);
            (a - d) as i32
        }
    }
}

/// Time since `start` at clock reading `now`; a clock read before `start`
/// counts as no time at all.
pub open spec fn elapsed_since(start: u64, now: u64) -> u64 {
    if now >= start {
        (now - start) as u64
    } else {
        0
    }
}

/// Ramps from `from` to `to` over `duration` clock units.
pub fn animate<T>(from: T, to: T, duration: u64) -> (r: Animate<T>)
    ensures
        r.from == from,
        r.to == Some(to),
        r.start is None,
        r.duration == duration,
{
    Animate { from, to: Some(to), start: None, duration }
}

/// A time-driven ramp. `start` is read from the clock on the first call;
/// `to` is handed out, unchanged, on the call where the duration is reached.
pub struct Animate<T> {
    pub from: T,
    pub to: Option<T>,
    pub start: Option<u64>,
    pub duration: u64,
}

impl<T: Interpolate> Action<Clock> for Animate<T> {
    type In = ();

    type Out = T;

    open spec fn wf(&self) -> bool {
        true
    }

    /// While time remains: the interpolated value. When it is up: `to`, once.
    /// After that: the end.
    open spec fn step(
        &self,
        input: (),
        ctx: Clock,
        next: Self,
        ctx_next: Clock,
        r: Poll<Option<T>>,
    ) -> bool {
        &&& ctx_next == ctx
        &&& match self.to {
            None => r == Poll::<Option<T>>::Ready(None) && next == *self,
            Some(to) => {
                let start = match self.start {
                    Some(s) => s,
                    None => ctx.elapsed,
                };
                let elapsed = elapsed_since(start, ctx.elapsed);
                &&& next.from == self.from
                &&& next.duration == self.duration
                &&& next.start == Some(start)
                &&& if elapsed < self.duration {
                    &&& next.to == self.to
                    &&& r == Poll::Ready(Some(T::interpolated(self.from, to, elapsed, self.duration)))
                } else {
                    &&& next.to is None
                    &&& r == Poll::Ready(Some(to))
                }
            },
        }
    }

    fn perform(&mut self, input: (), ctx: &mut Clock) -> (r: Poll<Option<T>>) {
        let now = ctx.elapsed;
        match self.to.take() {
            None => Poll::Ready(None),
            Some(to) => {
                let start = match self.start {
                    Some(s) => s,
                    None => now,
                };
                self.start = Some(start);
                let elapsed = if now >= start {
                    now - start
                } else {
                    0
                };
                if elapsed < self.duration {
                    let v = T::interpolate(&self.from, &to, elapsed, self.duration);
                    self.to = Some(to);
                    Poll::Ready(Some(v))
                } else {
                    Poll::Ready(Some(to))
                }
            },
        }
    }
}

} // verus!

verus! {

/// The first slot at or after `i` that still holds an action, or `s.len()`.
pub open spec fn first_active<A>(s: Seq<Option<A>>, i: int) -> int
    decreases s.len() - i,
{
    if i >= s.len() {
        s.len() as int
    } else if s[i] is Some {
        i
    } else {
        first_active(s, i + 1)
    }
}

/// Some slot of `s` still holds an action.
pub open spec fn any_active<A>(s: Seq<Option<A>>) -> bool {
    exists|k: int| 0 <= k < s.len() && (#[trigger] s[k]) is Some
}

proof fn lemma_first_active<A>(s: Seq<Option<A>>, i: int)
    requires
        0 <= i <= s.len(),
    ensures
        i <= first_active(s, i) <= s.len(),
        first_active(s, i) < s.len() ==> s[first_active(s, i)] is Some,
        forall|k: int| i <= k < first_active(s, i) ==> (#[trigger] s[k]) is None,
    decreases s.len() - i,
{
    if i < s.len() && s[i] is None {
        lemma_first_active(s, i + 1);
    }
}

/// Drives the actions of `actions` round-robin, one slot per call.
pub fn from_iter<A>(actions: Vec<A>) -> (r: FromIter<A>)
    ensures
        r.actions@.len() == actions@.len(),
        forall|k: int| 0 <= k < actions@.len() ==> #[trigger] r.actions@[k] == Some(actions@[k]),
        r.idx == 0,
{
    let mut actions = actions;
    let ghost orig = actions@;
    let mut slots: Vec<Option<A>> = Vec::new();
    let mut rest: Vec<A> = Vec::new();
    // Popped into `rest` back to front, then popped from `rest` in order.
    while actions.len() > 0
        invariant
            actions@ + rest@.reverse() == orig,
        decreases actions.len(),
    {
        let a = actions.pop().unwrap();
        proof {
            assert(rest@.push(a).reverse() == seq![a] + rest@.reverse());
        }
        rest.push(a);
    }
    assert(rest@.reverse() == orig);
    while rest.len() > 0
        invariant
            slots@.len() + rest@.len() == orig.len(),
            rest@.reverse() == orig.skip(slots@.len() as int),
            forall|k: int| 0 <= k < slots@.len() ==> #[trigger] slots@[k] == Some(orig[k]),
        decreases rest.len(),
    {
        let ghost n = slots@.len() as int;
        let a = rest.pop().unwrap();
        proof {
            assert(orig.skip(n)[0] == a);
            assert(orig.skip(n + 1) == orig.skip(n).skip(1));
            assert(rest@.reverse() =~= orig.skip(n + 1));
        }
        slots.push(Some(a));
    }
    FromIter { actions: slots, idx: 0 }
}

/// Round-robin state: one slot per action, `None` once it has ended, and the
/// cursor of the next slot to visit.
pub struct FromIter<A> {
    pub actions: Vec<Option<A>>,
    pub idx: usize,
}

/// The slot that a call of a round-robin driver with slots `s` and cursor
/// `idx` performs: the first live one at or after the cursor or, when there is
/// none, the first live one from the start; `s.len()` when no slot is live.
pub open spec fn slot_to_visit<A>(s: Seq<Option<A>>, idx: int) -> int {
    if first_active(s, idx) < s.len() {
        first_active(s, idx)
    } else {
        first_active(s, 0)
    }
}

impl<C, A: Action<C, Out = ()>> Action<C> for FromIter<A> {
    type In = A::In;

    type Out = ();

    open spec fn wf(&self) -> bool {
        &&& (self.idx == 0 || self.idx < self.actions@.len())
        &&& forall|k: int|
            0 <= k < self.actions@.len() && (#[trigger] self.actions@[k]) is Some
                ==> self.actions@[k]->Some_0.wf()
    }

    /// While some slot is live, the call performs exactly one slot, the one
    /// [`slot_to_visit`] names, once, and retires it if it reported its end;
    /// the cursor moves just past it, wrapping to 0 past the last slot. The
    /// call reports a visible step when it ends a pass (it performed the last
    /// slot, or it had to wrap to find a live one) and `Pending` otherwise.
    /// With no live slot it reports the end and changes nothing.
    open spec fn step(
        &self,
        input: A::In,
        ctx: C,
        next: Self,
        ctx_next: C,
        r: Poll<Option<()>>,
    ) -> bool {
        let s = self.actions@;
        let wrapped = first_active(s, self.idx as int) >= s.len();
        let j = slot_to_visit(s, self.idx as int);
        if j < s.len() {
            &&& next.actions@.len() == s.len()
            &&& forall|k: int| 0 <= k < s.len() && k != j ==> #[trigger] next.actions@[k] == s[k]
            &&& exists|ra: Poll<Option<()>>, a2: A|
                #[trigger] s[j]->Some_0.step(input, ctx, a2, ctx_next, ra) && next.actions@[j] == (
                if ra == Poll::<Option<()>>::Ready(None) {
                    None
                } else {
                    Some(a2)
                })
            &&& next.idx == (if j + 1 >= s.len() {
                0
            } else {
                j + 1
            })
            &&& if wrapped || j + 1 >= s.len() {
                r == Poll::Ready(Some(()))
            } else {
                r == Poll::<Option<()>>::Pending
            }
        } else {
            &&& next == *self
            &&& ctx_next == ctx
            &&& r == Poll::<Option<()>>::Ready(None)
        }
    }

    fn perform(&mut self, input: A::In, ctx: &mut C) -> (r: Poll<Option<()>>) {
        let len = self.actions.len();
        let mut j = self.idx;
        proof {
            lemma_first_active(self.actions@, self.idx as int);
        }
        while j < len && self.actions[j].is_none()
            invariant
                len == self.actions@.len(),
                self.idx <= j <= len,
                first_active(self.actions@, self.idx as int) == first_active(self.actions@, j as int),
            decreases len - j,
        {
            j = j + 1;
        }
        let wrapped = j >= len;
        if wrapped {
            j = 0;
            proof {
                lemma_first_active(self.actions@, 0);
            }
            while j < len && self.actions[j].is_none()
                invariant
                    len == self.actions@.len(),
                    j <= len,
                    first_active(self.actions@, 0) == first_active(self.actions@, j as int),
                decreases len - j,
            {
                j = j + 1;
            }
        }
        proof {
            lemma_first_active(self.actions@, j as int);
        }
        if j >= len {
            return Poll::Ready(None);
        }
        let mut slot: Option<A> = None;
        std::mem::swap(&mut slot, &mut self.actions[j]);
        let mut a = slot.unwrap();
        let ra = a.perform(input, ctx);
        match ra {
            Poll::Ready(None) => {},
            _ => {
                self.actions.set(j, Some(a));
            },
        }
        self.idx = if j + 1 >= len {
            0
        } else {
            j + 1
        };
        if wrapped || j + 1 >= len {
            Poll::Ready(Some(()))
        } else {
            Poll::Pending
        }
    }
}

} // verus!

verus! {

/// A store that can resolve a context of type `P` for one call and take back
/// the writes that the context deferred.
pub trait Resolve<P> {
    fn resolve(&mut self) -> P;

    fn apply(&mut self, params: P);
}

/// Lets an action that runs against a context `P` be driven against any store
/// that resolves `P`: each call resolves a fresh context, performs the action
/// once with it, and applies the context back to the store.
pub struct Resolved<A, P> {
    pub action: A,
    pub _marker: PhantomData<P>,
}

pub fn resolved<A, P>(action: A) -> (r: Resolved<A, P>)
    ensures
        r.action == action,
{
    Resolved { action, _marker: PhantomData }
}

impl<W: Resolve<P>, P, A: Action<P>> Action<W> for Resolved<A, P> {
    type In = A::In;

    type Out = A::Out;

    open spec fn wf(&self) -> bool {
        self.action.wf()
    }

    /// The inner action made exactly one step, against some resolved context.
    open spec fn step(
        &self,
        input: A::In,
        ctx: W,
        next: Self,
        ctx_next: W,
        r: Poll<Option<A::Out>>,
    ) -> bool {
        exists|p0: P, p1: P| #[trigger] self.action.step(input, p0, next.action, p1, r)
    }

    fn perform(&mut self, input: A::In, ctx: &mut W) -> (r: Poll<Option<A::Out>>) {
        let mut params = ctx.resolve();
        let r = self.action.perform(input, &mut params);
        ctx.apply(params);
        r
    }
}

} // verus!

verus! {

/// A one-shot action runs its function on its first call only. That call
/// makes a visible step and marks the action done; once done, every call
/// reports the end and changes neither the action nor the context, however
/// often it is repeated.
pub proof fn lemma_from_fn_runs_once<C, I, O, F: FnMut(I, &mut C) -> O>(
    s: FromFn<F, I, O>,
    input: I,
    ctx: C,
    next: FromFn<F, I, O>,
    ctx_next: C,
    r: Poll<Option<O>>,
)
    requires
        <FromFn<F, I, O> as Action<C>>::step(&s, input, ctx, next, ctx_next, r),
    ensures
        !s.is_done ==> (r matches Poll::Ready(Some(_))) && next.is_done && next.f == s.f,
        s.is_done ==> r == Poll::<Option<O>>::Ready(None) && next == s && ctx_next == ctx,
{
}

proof fn lemma_lerp_between(from: int, to: int, num: int, den: int)
    requires
        0 <= num < den,
    ensures
        from <= to ==> from <= lerp_int(from, to, num, den) <= to,
        to <= from ==> to <= lerp_int(from, to, num, den) <= from,
{
    if from <= to {
        lemma_scaled_below(to - from, num, den);
    } else {
        lemma_scaled_below(from - to, num, den);
    }
}

proof fn lemma_scaled_monotone(d: int, n1: int, n2: int, den: int)
    requires
        0 <= d,
        n1 <= n2,
        0 < den,
    ensures
        d * n1 / den <= d * n2 / den,
{
    assert(d * n1 <= d * n2) by (nonlinear_arith)
        requires
            0 <= d,
            n1 <= n2,
    ;
    assert(d * n1 / den <= d * n2 / den) by (nonlinear_arith)
        requires
            d * n1 <= d * n2,
            0 < den,
    ;
}

proof fn lemma_lerp_monotone(from: int, to: int, n1: int, n2: int, den: int)
    requires
        0 <= n1 <= n2 < den,
    ensures
        from <= to ==> lerp_int(from, to, n1, den) <= lerp_int(from, to, n2, den),
        to <= from ==> lerp_int(from, to, n2, den) <= lerp_int(from, to, n1, den),
{
    if from == to {
        assert((to - from) * n1 == 0 && (to - from) * n2 == 0);
    } else if from < to {
        lemma_scaled_monotone(to - from, n1, n2, den);
    } else {
        lemma_scaled_monotone(from - to, n1, n2, den);
    }
}

/// The ramp's last output is its target, exactly: a call that reports a value
/// and is followed by a call that reports the end has reported `to` itself.
pub proof fn lemma_animate_ends_on_target<T: Interpolate>(
    s: Animate<T>,
    c1: Clock,
    s1: Animate<T>,
    c1_next: Clock,
    r1: Poll<Option<T>>,
    c2: Clock,
    s2: Animate<T>,
    c2_next: Clock,
)
    requires
        s.to is Some,
        s.step((), c1, s1, c1_next, r1),
        s1.step((), c2, s2, c2_next, Poll::Ready(None)),
    ensures
        r1 == Poll::Ready(Some(s.to->Some_0)),
{
}

/// On a clock that does not run backwards, the ramp's outputs move toward
/// the target monotonically: they never decrease when `from <= to` and never
/// increase when `to <= from`, the exact target included.
pub proof fn lemma_animate_monotone(
    s: Animate<i32>,
    c1: Clock,
    s1: Animate<i32>,
    v1: i32,
    c2: Clock,
    s2: Animate<i32>,
    v2: i32,
)
    requires
        s.step((), c1, s1, c1, Poll::Ready(Some(v1))),
        s1.step((), c2, s2, c2, Poll::Ready(Some(v2))),
        c1.elapsed <= c2.elapsed,
    ensures
        s.from <= s.to->Some_0 ==> v1 <= v2,
        s.to->Some_0 <= s.from ==> v2 <= v1,
{
    let to = s.to->Some_0;
    let start = s1.start->Some_0;
    let e1 = elapsed_since(start, c1.elapsed);
    let e2 = elapsed_since(start, c2.elapsed);
    assert(e1 <= e2);
    if e1 < s.duration {
        let l1 = lerp_int(s.from as int, to as int, e1 as int, s.duration as int);
        lemma_lerp_between(s.from as int, to as int, e1 as int, s.duration as int);
        assert(v1 as int == l1);
        if e2 < s.duration {
            let l2 = lerp_int(s.from as int, to as int, e2 as int, s.duration as int);
            lemma_lerp_between(s.from as int, to as int, e2 as int, s.duration as int);
            lemma_lerp_monotone(s.from as int, to as int, e1 as int, e2 as int, s.duration as int);
            assert(v2 as int == l2);
        } else {
            assert(v2 == to);
        }
    } else {
        assert(s1.to is None);
    }
}

/// Within a pass the cursor only moves forward and nothing visible is
/// reported; a visible step comes exactly when a pass ends, which is when the
/// cursor goes back. The end is reported exactly when no slot is live, and
/// that call changes nothing, so reporting it again and again is harmless.
pub proof fn lemma_from_iter_pass<C, A: Action<C, Out = ()>>(
    s: FromIter<A>,
    input: A::In,
    ctx: C,
    next: FromIter<A>,
    ctx_next: C,
    r: Poll<Option<()>>,
)
    requires
        s.wf(),
        s.step(input, ctx, next, ctx_next, r),
    ensures
        r == Poll::<Option<()>>::Pending ==> next.idx > s.idx,
        (r matches Poll::Ready(Some(_))) ==> next.idx <= s.idx,
        r == Poll::<Option<()>>::Ready(None) <==> !any_active(s.actions@),
        r == Poll::<Option<()>>::Ready(None) ==> next == s && ctx_next == ctx,
{
    lemma_first_active(s.actions@, s.idx as int);
    lemma_first_active(s.actions@, 0);
    let j = slot_to_visit(s.actions@, s.idx as int);
    if j < s.actions@.len() {
        assert(s.actions@[j] is Some);
        if first_active(s.actions@, s.idx as int) >= s.actions@.len() {
            assert(j < s.idx);
        }
    } else if any_active(s.actions@) {
        let k = choose|k: int| 0 <= k < s.actions@.len() && (#[trigger] s.actions@[k]) is Some;
        assert(false);
    }
}

/// Calling `a` once with each input of `inputs` in turn, starting from
/// context `ctx` and handing each call's context on to the next, takes it to
/// `(a2, ctx2)` and reports `outs`, one result per call.
pub open spec fn runs<C, A: Action<C>>(
    a: A,
    ctx: C,
    inputs: Seq<A::In>,
    a2: A,
    ctx2: C,
    outs: Seq<Poll<Option<A::Out>>>,
) -> bool
    decreases inputs.len(),
{
    if inputs.len() == 0 {
        outs.len() == 0 && a2 == a && ctx2 == ctx
    } else {
        &&& outs.len() == inputs.len()
        &&& exists|a1: A, c1: C|
            #[trigger] a.step(inputs[0], ctx, a1, c1, outs[0]) && runs(
                a1,
                c1,
                inputs.skip(1),
                a2,
                ctx2,
                outs.skip(1),
            )
    }
}

proof fn lemma_done_from_fn_run<C, I, O, F: FnMut(I, &mut C) -> O>(
    s: FromFn<F, I, O>,
    ctx: C,
    inputs: Seq<I>,
    s2: FromFn<F, I, O>,
    ctx2: C,
    outs: Seq<Poll<Option<O>>>,
)
    requires
        s.is_done,
        runs(s, ctx, inputs, s2, ctx2, outs),
    ensures
        s2 == s,
        ctx2 == ctx,
        outs.len() == inputs.len(),
        forall|i: int| 0 <= i < outs.len() ==> #[trigger] outs[i] == Poll::<Option<O>>::Ready(None),
    decreases inputs.len(),
{
    if inputs.len() > 0 {
        let (s1, c1) = choose|s1: FromFn<F, I, O>, c1: C|
            #[trigger] <FromFn<F, I, O> as Action<C>>::step(&s, inputs[0], ctx, s1, c1, outs[0])
                && runs(s1, c1, inputs.skip(1), s2, ctx2, outs.skip(1));
        lemma_done_from_fn_run(s1, c1, inputs.skip(1), s2, ctx2, outs.skip(1));
        assert forall|i: int| 0 <= i < outs.len() implies #[trigger] outs[i] == Poll::<
            Option<O>,
        >::Ready(None) by {
            if i > 0 {
                assert(outs[i] == outs.skip(1)[i - 1]);
            }
        }
    }
}

/// However many times a fresh one-shot action is called, its function runs
/// on the first call only: that call reports what the function returned on
/// the first input and the starting context, and every later call reports
/// the end and leaves the action and the context as the first call left them.
pub proof fn lemma_from_fn_run<C, I, O, F: FnMut(I, &mut C) -> O>(
    s: FromFn<F, I, O>,
    ctx: C,
    inputs: Seq<I>,
    s2: FromFn<F, I, O>,
    ctx2: C,
    outs: Seq<Poll<Option<O>>>,
)
    requires
        !s.is_done,
        inputs.len() > 0,
        runs(s, ctx, inputs, s2, ctx2, outs),
    ensures
        s2.is_done,
        s2.f == s.f,
        exists|o: O, m: &mut C|
            #[trigger] call_ensures(s.f, (inputs[0], m), o) && mut_ref_current(m) == ctx
                && outs[0] == Poll::Ready(Some(o)),
        forall|i: int| 1 <= i < outs.len() ==> #[trigger] outs[i] == Poll::<Option<O>>::Ready(None),
        exists|s1: FromFn<F, I, O>, c1: C|
            #[trigger] <FromFn<F, I, O> as Action<C>>::step(&s, inputs[0], ctx, s1, c1, outs[0])
                && s2 == s1 && ctx2 == c1,
{
    let (s1, c1) = choose|s1: FromFn<F, I, O>, c1: C|
        #[trigger] <FromFn<F, I, O> as Action<C>>::step(&s, inputs[0], ctx, s1, c1, outs[0])
            && runs(s1, c1, inputs.skip(1), s2, ctx2, outs.skip(1));
    lemma_done_from_fn_run(s1, c1, inputs.skip(1), s2, ctx2, outs.skip(1));
    assert forall|i: int| 1 <= i < outs.len() implies #[trigger] outs[i] == Poll::<
        Option<O>,
    >::Ready(None) by {
        assert(outs[i] == outs.skip(1)[i - 1]);
    }
}

/// Calling `a` once per context of `ctxs`, in turn, with input `()` takes
/// it to `a2` and reports `outs`; each call gets the context as the host
/// hands it over at that time (a clock reading, say), not what the previous
/// call left.
pub open spec fn runs_at<C, A: Action<C, In = ()>>(
    a: A,
    ctxs: Seq<C>,
    a2: A,
    outs: Seq<Poll<Option<A::Out>>>,
) -> bool
    decreases ctxs.len(),
{
    if ctxs.len() == 0 {
        outs.len() == 0 && a2 == a
    } else {
        &&& outs.len() == ctxs.len()
        &&& exists|a1: A, c1: C|
            #[trigger] a.step((), ctxs[0], a1, c1, outs[0]) && runs_at(
                a1,
                ctxs.skip(1),
                a2,
                outs.skip(1),
            )
    }
}

/// The clock readings of `clocks` never go back.
pub open spec fn nondecreasing(clocks: Seq<Clock>) -> bool {
    forall|i: int, j: int| 0 <= i <= j < clocks.len() ==> clocks[i].elapsed <= clocks[j].elapsed
}

/// What a ramp from `from` to `to` over `d`, started at `start`, reports at
/// clock reading `now`, given whether an earlier call already reached the end
/// of the ramp.
pub open spec fn ramp_output<T: Interpolate>(
    from: T,
    to: T,
    d: u64,
    start: u64,
    reached: bool,
    now: u64,
) -> Poll<Option<T>> {
    if reached {
        Poll::Ready(None)
    } else if elapsed_since(start, now) < d {
        Poll::Ready(Some(T::interpolated(from, to, elapsed_since(start, now), d)))
    } else {
        Poll::Ready(Some(to))
    }
}

proof fn lemma_animate_run_from<T: Interpolate>(
    s: Animate<T>,
    from: T,
    to: T,
    start: u64,
    clocks: Seq<Clock>,
    s2: Animate<T>,
    outs: Seq<Poll<Option<T>>>,
)
    requires
        s.start == Some(start),
        s.from == from,
        s.to is Some ==> s.to->Some_0 == to,
        nondecreasing(clocks),
        runs_at(s, clocks, s2, outs),
    ensures
        outs.len() == clocks.len(),
        forall|i: int|
            0 <= i < clocks.len() ==> #[trigger] outs[i] == ramp_output(
                from,
                to,
                s.duration,
                start,
                s.to is None || (i > 0 && elapsed_since(start, clocks[i - 1].elapsed)
                    >= s.duration),
                clocks[i].elapsed,
            ),
    decreases clocks.len(),
{
    if clocks.len() > 0 {
        let (s1, c1) = choose|s1: Animate<T>, c1: Clock|
            #[trigger] s.step((), clocks[0], s1, c1, outs[0]) && runs_at(
                s1,
                clocks.skip(1),
                s2,
                outs.skip(1),
            );
        assert(nondecreasing(clocks.skip(1))) by {
            assert forall|i: int, j: int| 0 <= i <= j < clocks.skip(1).len() implies clocks.skip(
                1,
            )[i].elapsed <= clocks.skip(1)[j].elapsed by {
                assert(clocks.skip(1)[i] == clocks[i + 1]);
                assert(clocks.skip(1)[j] == clocks[j + 1]);
            }
        }
        lemma_animate_run_from(s1, from, to, start, clocks.skip(1), s2, outs.skip(1));
        assert forall|i: int| 0 <= i < clocks.len() implies #[trigger] outs[i] == ramp_output(
            from,
            to,
            s.duration,
            start,
            s.to is None || (i > 0 && elapsed_since(start, clocks[i - 1].elapsed) >= s.duration),
            clocks[i].elapsed,
        ) by {
            if i > 0 {
                assert(outs[i] == outs.skip(1)[i - 1]);
                assert(clocks[i] == clocks.skip(1)[i - 1]);
                if i > 1 {
                    assert(clocks[i - 1] == clocks.skip(1)[i - 2]);
                    assert(clocks[0].elapsed <= clocks[i - 2 + 1].elapsed);
                }
            }
        }
    }
}

/// A fresh ramp driven on a clock that never goes back: each call reports
/// the value interpolated at the time elapsed since the first call while that
/// is under the duration; the first call that reaches the duration reports
/// `to` itself, exactly; every call after it reports the end; no call reports
/// `Pending`.
pub proof fn lemma_animate_run<T: Interpolate>(
    s: Animate<T>,
    clocks: Seq<Clock>,
    s2: Animate<T>,
    outs: Seq<Poll<Option<T>>>,
)
    requires
        s.start is None,
        s.to is Some,
        clocks.len() > 0,
        nondecreasing(clocks),
        runs_at(s, clocks, s2, outs),
    ensures
        outs.len() == clocks.len(),
        forall|i: int|
            0 <= i < clocks.len() ==> #[trigger] outs[i] == ramp_output(
                s.from,
                s.to->Some_0,
                s.duration,
                clocks[0].elapsed,
                i > 0 && elapsed_since(clocks[0].elapsed, clocks[i - 1].elapsed) >= s.duration,
                clocks[i].elapsed,
            ),
{
    let start = clocks[0].elapsed;
    let s0 = Animate { start: Some(start), ..s };
    assert(runs_at(s0, clocks, s2, outs)) by {
        let (s1, c1) = choose|s1: Animate<T>, c1: Clock|
            #[trigger] s.step((), clocks[0], s1, c1, outs[0]) && runs_at(
                s1,
                clocks.skip(1),
                s2,
                outs.skip(1),
            );
        assert(s0.step((), clocks[0], s1, c1, outs[0]));
    }
    lemma_animate_run_from(s0, s.from, s.to->Some_0, start, clocks, s2, outs);
}

} // verus!
