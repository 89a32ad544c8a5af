use bevy_mod_sequencer::action::{
    and_then, animate, from_fn, from_iter, resolved, then, Action, Clock, Interpolate, Poll,
    Resolve,
};

fn yield_some<T>(v: T) -> Poll<Option<T>> {
    Poll::Ready(Some(v))
}

#[test]
fn from_fn_runs_its_function_once() {
    let mut calls: u32 = 0;
    let mut action = from_fn(|x: u32, calls: &mut u32| {
        *calls += 1;
        x * 2
    });
    assert_eq!(action.perform(21, &mut calls), yield_some(42));
    assert_eq!(calls, 1);
    assert_eq!(action.perform(5, &mut calls), Poll::Ready(None));
    assert_eq!(action.perform(6, &mut calls), Poll::Ready(None));
    assert_eq!(calls, 1);
}

#[test]
fn animate_ramps_up_and_ends_on_target() {
    let mut ramp = animate(0i32, 100i32, 3);
    let mut outs = Vec::new();
    for now in 10u64..16 {
        let mut clock = Clock { elapsed: now };
        outs.push(ramp.perform((), &mut clock));
    }
    assert_eq!(
        outs,
        vec![
            yield_some(0),
            yield_some(33),
            yield_some(66),
            yield_some(100),
            Poll::Ready(None),
            Poll::Ready(None),
        ]
    );
}

#[test]
fn animate_ramps_down_rounding_toward_start() {
    let mut ramp = animate(100i32, 0i32, 3);
    let outs: Vec<_> = (0u64..5)
        .map(|now| ramp.perform((), &mut Clock { elapsed: now }))
        .collect();
    assert_eq!(
        outs,
        vec![yield_some(100), yield_some(67), yield_some(34), yield_some(0), Poll::Ready(None)]
    );
}

#[test]
fn animate_delivers_target_verbatim_after_a_long_gap() {
    let mut ramp = animate(-7i32, 9i32, 4);
    assert_eq!(ramp.perform((), &mut Clock { elapsed: 100 }), yield_some(-7));
    assert_eq!(ramp.perform((), &mut Clock { elapsed: 1000 }), yield_some(9));
    assert_eq!(ramp.perform((), &mut Clock { elapsed: 1001 }), Poll::Ready(None));
}

#[test]
fn animate_zero_duration_gives_target_at_once() {
    let mut ramp = animate(1i32, 2i32, 0);
    assert_eq!(ramp.perform((), &mut Clock { elapsed: 5 }), yield_some(2));
    assert_eq!(ramp.perform((), &mut Clock { elapsed: 5 }), Poll::Ready(None));
}

#[test]
fn animate_outputs_never_decrease_on_a_steady_clock() {
    let mut ramp = animate(3i32, 1000i32, 7);
    let mut last = i32::MIN;
    for now in [0u64, 0, 1, 1, 2, 4, 4, 6, 7] {
        match ramp.perform((), &mut Clock { elapsed: now }) {
            Poll::Ready(Some(v)) => {
                assert!(v >= last);
                last = v;
            }
            other => panic!("unexpected {:?}", other),
        }
    }
    assert_eq!(last, 1000);
}

#[test]
fn interpolate_i32_exact_values() {
    assert_eq!(i32::interpolate(&0, &100, 1, 3), 33);
    assert_eq!(i32::interpolate(&0, &100, 2, 3), 66);
    assert_eq!(i32::interpolate(&-10, &10, 1, 2), 0);
    assert_eq!(i32::interpolate(&10, &-10, 1, 4), 5);
    assert_eq!(i32::interpolate(&i32::MIN, &i32::MAX, 1, 2), -1);
    assert_eq!(i32::interpolate(&i32::MAX, &i32::MIN, u64::MAX - 1, u64::MAX), i32::MIN + 1);
    assert_eq!(i32::interpolate(&5, &5, 7, 9), 5);
}

fn log_step(tag: u32) -> impl FnMut((), &mut Vec<u32>) {
    move |_: (), log: &mut Vec<u32>| log.push(tag)
}

#[test]
fn then_forwards_first_then_second() {
    // `a` yields twice, `b` three times.
    let a = then(from_fn(log_step(1)), from_fn(log_step(2)));
    let b = then(then(from_fn(log_step(3)), from_fn(log_step(4))), from_fn(log_step(5)));
    let mut both = then(a, b);
    let mut log = Vec::new();
    let mut visible = Vec::new();
    for tick in 1u32..=6 {
        loop {
            match both.perform((), &mut log) {
                Poll::Pending => continue,
                Poll::Ready(Some(())) => {
                    visible.push((tick, *log.last().unwrap()));
                    break;
                }
                Poll::Ready(None) => {
                    visible.push((tick, 0));
                    break;
                }
            }
        }
    }
    assert_eq!(visible, vec![(1, 1), (2, 2), (3, 3), (4, 4), (5, 5), (6, 0)]);
    assert_eq!(log, vec![1, 2, 3, 4, 5]);
}

#[test]
fn then_switch_reports_pending() {
    let mut both = then(from_fn(log_step(1)), from_fn(log_step(2)));
    let mut log = Vec::new();
    assert_eq!(both.perform((), &mut log), yield_some(()));
    assert_eq!(both.perform((), &mut log), Poll::Pending);
    assert_eq!(both.perform((), &mut log), yield_some(()));
    assert_eq!(both.perform((), &mut log), Poll::Ready(None));
}

#[test]
fn and_then_drives_continuation_with_same_input_then_ends() {
    let source = from_fn(|x: u32, _: &mut Vec<u32>| x + 1);
    let mut chained = and_then(source, |n: u32| {
        from_fn(move |x: u32, log: &mut Vec<u32>| {
            log.push(n * 100 + x);
            n
        })
    });
    let mut log = Vec::new();
    assert_eq!(chained.perform(4, &mut log), Poll::Pending);
    assert_eq!(chained.perform(7, &mut log), yield_some(5));
    assert_eq!(log, vec![507]);
    // The continuation's end is the end of the whole: the source is not polled again.
    assert_eq!(chained.perform(9, &mut log), Poll::Ready(None));
    assert_eq!(log, vec![507]);
}

#[test]
fn and_then_ends_when_source_ends_without_output() {
    let mut done = from_fn(|_: (), _: &mut Vec<u32>| ());
    let mut log = Vec::new();
    assert_eq!(done.perform((), &mut log), yield_some(()));
    let mut chained = and_then(done, |_: ()| from_fn(log_step(9)));
    assert_eq!(chained.perform((), &mut log), Poll::Ready(None));
    assert!(log.is_empty());
}

#[test]
fn map_runs_a_continuation_per_output_and_loops_back() {
    let source = then(from_fn(|_: (), _: &mut Vec<u32>| 1u32), from_fn(|_: (), _: &mut Vec<u32>| 2u32));
    let mut mapped = bevy_mod_sequencer::action::map(source, |n: u32| from_fn(move |_: (), log: &mut Vec<u32>| log.push(n * 10)));
    let mut log = Vec::new();
    let mut results = Vec::new();
    for _ in 0..8 {
        results.push(mapped.perform((), &mut log));
    }
    assert_eq!(
        results,
        vec![
            Poll::Pending,       // source yields 1, continuation built
            yield_some(()),      // continuation runs: log 10
            Poll::Pending,       // continuation ends; source switches to its second part
            Poll::Pending,       // source yields 2, continuation built
            yield_some(()),      // log 20
            Poll::Ready(None),   // continuation ends; source ends
            Poll::Ready(None),
            Poll::Ready(None),
        ]
    );
    assert_eq!(log, vec![10, 20]);
}

#[test]
fn from_iter_round_robin_full_pass() {
    let mut all = from_iter(vec![from_fn(log_step(1)), from_fn(log_step(2)), from_fn(log_step(3))]);
    let mut log = Vec::new();
    let first: Vec<_> = (0..3).map(|_| all.perform((), &mut log)).collect();
    assert_eq!(first, vec![Poll::Pending, Poll::Pending, yield_some(())]);
    assert_eq!(log, vec![1, 2, 3]);
    let second: Vec<_> = (0..3).map(|_| all.perform((), &mut log)).collect();
    assert_eq!(second, vec![Poll::Pending, Poll::Pending, yield_some(())]);
    assert!(all.actions.iter().all(|slot| slot.is_none()));
    assert_eq!(all.perform((), &mut log), Poll::Ready(None));
    assert_eq!(log, vec![1, 2, 3]);
}

#[test]
fn from_iter_empty_is_done_at_once() {
    let mut none = from_iter(Vec::<bevy_mod_sequencer::action::FromFn<fn((), &mut Vec<u32>), (), ()>>::new());
    let mut log = Vec::new();
    assert_eq!(none.perform((), &mut log), Poll::Ready(None));
}

/// Yields `left` times, logging `tag` each time, then ends.
struct Repeat {
    tag: u32,
    left: u32,
}

impl Action<Vec<u32>> for Repeat {
    type In = ();
    type Out = ();

    fn perform(&mut self, _input: (), log: &mut Vec<u32>) -> Poll<Option<()>> {
        if self.left == 0 {
            Poll::Ready(None)
        } else {
            self.left -= 1;
            log.push(self.tag);
            Poll::Ready(Some(()))
        }
    }
}

#[test]
fn from_iter_keeps_early_slots_alive_when_later_ones_retire() {
    let mut all = from_iter(vec![Repeat { tag: 1, left: 3 }, Repeat { tag: 2, left: 1 }]);
    let mut log = Vec::new();
    let mut results = Vec::new();
    for _ in 0..8 {
        results.push(all.perform((), &mut log));
    }
    assert_eq!(
        results,
        vec![
            Poll::Pending,
            yield_some(()),
            Poll::Pending,
            yield_some(()), // the second slot retires here
            Poll::Pending,
            // no live slot after the cursor: the call wraps, performs the first
            // slot (which ends and retires) and closes the pass
            yield_some(()),
            Poll::Ready(None),
            Poll::Ready(None),
        ]
    );
    assert_eq!(all.idx, 1);
    assert_eq!(log, vec![1, 2, 1, 1]);
    assert!(all.actions.iter().all(|slot| slot.is_none()));
}

#[test]
fn from_iter_wrap_performs_a_slot() {
    let mut all = from_iter(vec![Repeat { tag: 1, left: 5 }, Repeat { tag: 2, left: 1 }]);
    let mut log = Vec::new();
    assert_eq!(all.perform((), &mut log), Poll::Pending);
    assert_eq!(all.perform((), &mut log), yield_some(()));
    assert_eq!(all.perform((), &mut log), Poll::Pending);
    assert_eq!(all.perform((), &mut log), yield_some(())); // second slot retires
    assert_eq!(all.idx, 0);
    assert_eq!(all.perform((), &mut log), Poll::Pending);
    assert_eq!(all.idx, 1);
    // Every live slot lies before the cursor: this call still performs one.
    assert_eq!(all.perform((), &mut log), yield_some(()));
    assert_eq!(log, vec![1, 2, 1, 1, 1]);
    assert_eq!(all.idx, 1);
}

#[test]
fn from_iter_end_leaves_state_unchanged() {
    let mut all = from_iter(vec![Repeat { tag: 1, left: 1 }, Repeat { tag: 2, left: 1 }]);
    all.actions[0] = None;
    all.actions[1] = None;
    all.idx = 1;
    let mut log = Vec::new();
    assert_eq!(all.perform((), &mut log), Poll::Ready(None));
    assert_eq!(all.idx, 1);
    assert_eq!(all.perform((), &mut log), Poll::Ready(None));
    assert_eq!(all.idx, 1);
    assert!(log.is_empty());
}

struct Store {
    now: u64,
    reads: u32,
}

impl Resolve<Clock> for Store {
    fn resolve(&mut self) -> Clock {
        self.reads += 1;
        Clock { elapsed: self.now }
    }

    fn apply(&mut self, _params: Clock) {}
}

#[test]
fn resolved_reads_context_from_store_each_call() {
    let mut ramp = resolved(animate(0i32, 10i32, 2));
    let mut store = Store { now: 50, reads: 0 };
    assert_eq!(ramp.perform((), &mut store), yield_some(0));
    store.now = 51;
    assert_eq!(ramp.perform((), &mut store), yield_some(5));
    store.now = 52;
    assert_eq!(ramp.perform((), &mut store), yield_some(10));
    assert_eq!(ramp.perform((), &mut store), Poll::Ready(None));
    assert_eq!(store.reads, 4);
}
