use bevy_mod_sequencer::action::{animate, from_fn, resolved, then, Action, Clock, Poll, Resolve};
use bevy_mod_sequencer::{Sequencer, Tick};

/// A test world: a clock, a log, and a count of callback runs.
#[derive(Default)]
struct World {
    now: u64,
    log: Vec<i64>,
}

impl Resolve<Clock> for World {
    fn resolve(&mut self) -> Clock {
        Clock { elapsed: self.now }
    }

    fn apply(&mut self, _params: Clock) {}
}

/// Type-erased unit action over `World`.
struct Erased(Box<dyn FnMut(&mut World) -> Poll<Option<()>>>);

impl Erased {
    fn new<A: Action<World, In = (), Out = ()> + 'static>(mut action: A) -> Self {
        Erased(Box::new(move |world: &mut World| action.perform((), world)))
    }
}

impl Action<World> for Erased {
    type In = ();
    type Out = ();

    fn perform(&mut self, _input: (), world: &mut World) -> Poll<Option<()>> {
        (self.0)(world)
    }
}

fn logged_ramp(from: i32, to: i32, duration: u64) -> Erased {
    let mut ramp = resolved::<_, Clock>(animate(from, to, duration));
    Erased(Box::new(move |world: &mut World| match ramp.perform((), world) {
        Poll::Ready(Some(v)) => {
            world.log.push(v as i64);
            Poll::Ready(Some(()))
        }
        Poll::Ready(None) => Poll::Ready(None),
        Poll::Pending => Poll::Pending,
    }))
}

fn note(tag: i64) -> Erased {
    Erased::new(from_fn(move |_: (), w: &mut World| w.log.push(tag)))
}

#[test]
fn tick_on_empty_sequencer_is_idle() {
    let mut seq: Sequencer<Erased> = Sequencer::new();
    let mut world = World::default();
    assert_eq!(seq.tick(&mut world, usize::MAX), Tick::Idle);
    assert_eq!(seq.running_len(), 0);
    assert_eq!(seq.waiting_len(), 0);
}

#[test]
fn interpolation_end_to_end() {
    let mut seq = Sequencer::default();
    seq.push(logged_ramp(0, 100, 3));
    let mut world = World::default();
    // The tick that starts the action does not call it.
    assert_eq!(seq.tick(&mut world, usize::MAX), Tick::Idle);
    assert_eq!(seq.running_len(), 1);
    let mut outcomes = Vec::new();
    for _ in 0..5 {
        world.now += 1;
        outcomes.push(seq.tick(&mut world, usize::MAX));
    }
    assert_eq!(
        outcomes,
        vec![Tick::Yielded, Tick::Yielded, Tick::Yielded, Tick::Yielded, Tick::Finished]
    );
    assert_eq!(world.log, vec![0, 33, 66, 100]);
    assert_eq!(seq.running_len(), 0);
    assert_eq!(seq.tick(&mut world, usize::MAX), Tick::Idle);
}

#[test]
fn actions_run_one_at_a_time_in_push_order() {
    let mut seq = Sequencer::new();
    seq.push(Erased::new(then(from_fn(|_: (), w: &mut World| w.log.push(1)), from_fn(|_: (), w: &mut World| w.log.push(2)))));
    seq.push(note(3));
    let mut world = World::default();
    assert_eq!(seq.tick(&mut world, usize::MAX), Tick::Idle);
    assert_eq!(seq.tick(&mut world, usize::MAX), Tick::Yielded);
    assert_eq!(world.log, vec![1]);
    assert_eq!(seq.tick(&mut world, usize::MAX), Tick::Yielded);
    assert_eq!(world.log, vec![1, 2]);
    // The first action ends; the second has not been called yet.
    assert_eq!(seq.tick(&mut world, usize::MAX), Tick::Finished);
    assert_eq!(world.log, vec![1, 2]);
    assert_eq!(seq.tick(&mut world, usize::MAX), Tick::Yielded);
    assert_eq!(world.log, vec![1, 2, 3]);
    assert_eq!(seq.tick(&mut world, usize::MAX), Tick::Finished);
    assert_eq!(seq.tick(&mut world, usize::MAX), Tick::Idle);
    assert_eq!(world.log, vec![1, 2, 3]);
}

#[test]
fn pushed_while_running_waits_its_turn() {
    let mut seq = Sequencer::new();
    seq.push(note(1));
    let mut world = World::default();
    seq.tick(&mut world, usize::MAX);
    seq.push_boxed(Box::new(note(2)));
    assert_eq!(seq.waiting_len(), 1);
    assert_eq!(seq.tick(&mut world, usize::MAX), Tick::Yielded);
    assert_eq!(seq.waiting_len(), 0);
    assert_eq!(seq.running_len(), 2);
    assert_eq!(world.log, vec![1]);
    assert_eq!(seq.tick(&mut world, usize::MAX), Tick::Finished);
    assert_eq!(seq.tick(&mut world, usize::MAX), Tick::Yielded);
    assert_eq!(world.log, vec![1, 2]);
}

#[test]
fn callback_driven_to_completion_runs_once() {
    let mut seq = Sequencer::new();
    seq.push(note(7));
    let mut world = World::default();
    for _ in 0..6 {
        seq.tick(&mut world, usize::MAX);
        let _ = seq.drive_front(&mut world, usize::MAX);
    }
    assert_eq!(world.log, vec![7]);
    assert_eq!(seq.running_len(), 0);
}

#[test]
fn busy_front_stalls_after_budget() {
    let mut spins: u32 = 0;
    let mut seq = Sequencer::new();
    seq.push(Erased(Box::new(move |w: &mut World| {
        spins += 1;
        w.log.push(spins as i64);
        if spins < 10 {
            Poll::Pending
        } else {
            Poll::Ready(None)
        }
    })));
    let mut world = World::default();
    seq.tick(&mut world, 3);
    assert_eq!(seq.tick(&mut world, 3), Tick::Stalled);
    assert_eq!(world.log.len(), 4);
    assert_eq!(seq.drive_front(&mut world, 3), Tick::Stalled);
    assert_eq!(world.log.len(), 8);
    assert_eq!(seq.drive_front(&mut world, 3), Tick::Finished);
    assert_eq!(world.log.len(), 10);
    assert_eq!(seq.running_len(), 0);
}

#[test]
fn append_waiting_moves_pushes_in_order() {
    let mut seq = Sequencer::new();
    seq.push(note(1));
    let mut other = Sequencer::new();
    other.push(note(2));
    other.push(note(3));
    seq.append_waiting(&mut other);
    assert_eq!(other.waiting_len(), 0);
    assert_eq!(seq.waiting_len(), 3);
    let mut world = World::default();
    seq.tick(&mut world, usize::MAX);
    for _ in 0..6 {
        seq.tick(&mut world, usize::MAX);
    }
    assert_eq!(world.log, vec![1, 2, 3]);
}
