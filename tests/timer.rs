use std::cell::Cell;
use std::rc::Rc;

use libu::{TaskCallback, Timer, TimerHandle, WHEEL_SIZE};

struct Count(Rc<Cell<u32>>);

impl TaskCallback for Count {
    fn invoke(&mut self) {
        self.0.set(self.0.get() + 1);
    }
}

fn counter() -> (Rc<Cell<u32>>, Count) {
    let c = Rc::new(Cell::new(0));
    (c.clone(), Count(c))
}

fn advance(t: &mut Timer<Count>, n: usize) -> Vec<Vec<usize>> {
    let mut all = Vec::new();
    for _ in 0..n {
        assert!(t.can_update());
        all.push(t.update());
    }
    all
}

#[test]
fn new_timer_is_empty() {
    let t: Timer<Count> = Timer::new(100);
    assert_eq!(t.tick(), 0);
    assert_eq!(t.task_count(), 0);
    assert_eq!(t.tick_duration_millis(), 100);
    assert!(t.can_update());
}

#[test]
fn delay_five_fires_on_the_fifth_advance() {
    assert_eq!(WHEEL_SIZE, 4096);
    let mut t = Timer::new(100);
    let (c, cb) = counter();
    let h = t.delay(5, cb);
    assert_eq!(h.id(), 0);
    advance(&mut t, 4);
    assert_eq!(c.get(), 0);
    let fired = t.update();
    assert_eq!(fired, vec![0]);
    assert_eq!(c.get(), 1);
    assert_eq!(t.tick(), 5);
    assert!(t.update().is_empty());
    assert_eq!(c.get(), 1);
}

#[test]
fn delay_zero_fires_on_next_advance() {
    let mut t = Timer::new(10);
    let (c, cb) = counter();
    t.delay(0, cb);
    assert_eq!(t.update(), vec![0]);
    assert_eq!(c.get(), 1);
    advance(&mut t, 3);
    assert_eq!(c.get(), 1);
}

#[test]
fn delay_counts_from_current_tick() {
    let mut t = Timer::new(10);
    advance(&mut t, 10);
    let (c, cb) = counter();
    t.delay(2, cb);
    advance(&mut t, 1);
    assert_eq!(c.get(), 0);
    advance(&mut t, 1);
    assert_eq!(c.get(), 1);
    assert_eq!(t.tick(), 12);
}

#[test]
fn ticker_three_fires_at_ticks_three_six_nine() {
    let mut t = Timer::new(100);
    let (c, cb) = counter();
    let h = t.ticker(3, cb).unwrap();
    let rounds = advance(&mut t, 9);
    assert_eq!(c.get(), 3);
    for (i, fired) in rounds.iter().enumerate() {
        let call = i + 1;
        let expect = call == 3 || call == 6 || call == 9;
        assert_eq!(fired.contains(&h.id()), expect, "call {}", call);
    }
}

#[test]
fn ticker_three_after_nine_advances() {
    let mut t = Timer::new(100);
    let (c, cb) = counter();
    t.ticker(3, cb).unwrap();
    advance(&mut t, 9);
    assert_eq!(c.get(), 3);
    assert_eq!(t.tick(), 9);
}

#[test]
fn ticker_zero_is_refused() {
    let mut t = Timer::new(100);
    let (c, cb) = counter();
    assert!(t.ticker(0, cb).is_none());
    assert_eq!(t.task_count(), 0);
    advance(&mut t, 5);
    assert_eq!(c.get(), 0);
}

#[test]
fn stop_skips_one_firing_and_keeps_schedule() {
    let mut t = Timer::new(100);
    let (c, cb) = counter();
    let mut h: TimerHandle = t.ticker(2, cb).unwrap();
    advance(&mut t, 1);
    h.stop(&mut t);
    let at_two = t.update();
    assert!(at_two.is_empty());
    assert_eq!(t.tick(), 2);
    advance(&mut t, 1);
    h.start(&mut t);
    let at_four = t.update();
    assert_eq!(at_four, vec![h.id()]);
    assert_eq!(c.get(), 1);
    assert_eq!(t.tick(), 4);
}

#[test]
fn stopped_ticker_stays_scheduled() {
    let mut t = Timer::new(100);
    let (c, cb) = counter();
    let mut h = t.ticker(1, cb).unwrap();
    h.stop(&mut t);
    advance(&mut t, 4);
    assert_eq!(c.get(), 0);
    h.start(&mut t);
    advance(&mut t, 2);
    assert_eq!(c.get(), 2);
}

#[test]
fn remove_ends_a_repeating_task() {
    let mut t = Timer::new(100);
    let (c, cb) = counter();
    let mut h = t.ticker(2, cb).unwrap();
    advance(&mut t, 3);
    assert_eq!(c.get(), 1);
    h.remove(&mut t);
    h.start(&mut t);
    advance(&mut t, 20);
    assert_eq!(c.get(), 1);
}

#[test]
fn remove_before_a_one_shot_fires() {
    let mut t = Timer::new(100);
    let (c, cb) = counter();
    let mut h = t.delay(1, cb);
    h.remove(&mut t);
    let rounds = advance(&mut t, 3);
    assert!(rounds.iter().all(|f| f.is_empty()));
    assert_eq!(c.get(), 0);
}

#[test]
fn tasks_a_wheel_apart_fire_apart() {
    let mut t = Timer::new(1);
    let (c1, cb1) = counter();
    let (c2, cb2) = counter();
    let a = t.delay(3, cb1);
    let b = t.delay(3 + WHEEL_SIZE, cb2);
    let rounds = advance(&mut t, WHEEL_SIZE + 5);
    for (i, fired) in rounds.iter().enumerate() {
        let call = i + 1;
        assert_eq!(fired.contains(&a.id()), call == 3);
        assert_eq!(fired.contains(&b.id()), call == 3 + WHEEL_SIZE);
    }
    assert_eq!(c1.get(), 1);
    assert_eq!(c2.get(), 1);
}

#[test]
fn tasks_due_together_fire_together() {
    let mut t = Timer::new(1);
    let (c, cb1) = counter();
    let cb2 = Count(c.clone());
    let a = t.delay(2, cb1);
    let b = t.ticker(2, cb2).unwrap();
    advance(&mut t, 1);
    let mut fired = t.update();
    fired.sort();
    assert_eq!(fired, vec![a.id(), b.id()]);
    assert_eq!(c.get(), 2);
}

#[test]
fn ticker_one_fires_every_advance() {
    let mut t = Timer::new(100);
    let (c, cb) = counter();
    let h = t.ticker(1, cb).unwrap();
    let rounds = advance(&mut t, 4);
    assert!(rounds.iter().all(|f| f == &vec![h.id()]));
    assert_eq!(c.get(), 4);
}

#[test]
fn delay_one_and_zero_fire_together() {
    let mut t = Timer::new(100);
    let (c, cb0) = counter();
    let cb1 = Count(c.clone());
    t.delay(0, cb0);
    t.delay(1, cb1);
    let mut fired = t.update();
    fired.sort();
    assert_eq!(fired, vec![0, 1]);
    assert_eq!(c.get(), 2);
}

#[test]
fn handles_copy_to_the_same_task() {
    let mut t = Timer::new(100);
    let (c, cb) = counter();
    let h = t.ticker(1, cb).unwrap();
    let mut other = h;
    other.stop(&mut t);
    advance(&mut t, 2);
    assert_eq!(c.get(), 0);
    assert_eq!(other.id(), h.id());
}

#[test]
fn handle_does_nothing_on_another_timer() {
    let mut a = Timer::with_ident(100, 1);
    let mut b = Timer::with_ident(100, 2);
    let (ca, cba) = counter();
    let (cb, cbb) = counter();
    let mut ha = a.ticker(1, cba).unwrap();
    b.ticker(1, cbb).unwrap();
    assert_eq!(ha.timer_ident(), 1);
    assert_eq!(b.get_ident(), 2);
    ha.remove(&mut b);
    advance(&mut a, 2);
    advance(&mut b, 2);
    assert_eq!(ca.get(), 2);
    assert_eq!(cb.get(), 2);
}
