//! When the tasks of a wheel fire, over any number of advances.

use vstd::prelude::*;

use crate::timer::{advance_slot, at_least_one, TaskState, WheelState, WHEEL_SIZE};

verus! {

broadcast use vstd::arithmetic::div_mod::lemma_fundamental_div_mod_converse_mod;

/// After `k` advances the tick has moved on by `k` and no handle has come or gone.
pub proof fn lemma_steps_shape(w: WheelState, k: nat)
    ensures
        w.steps(k).tick == w.tick + k,
        w.steps(k).tasks.len() == w.tasks.len(),
    decreases k,
{
    if k > 0 {
        lemma_steps_shape(w, (k - 1) as nat);
    }
}

/// One more advance acts on each slot alone, at the tick it moves on to.
proof fn lemma_steps_next(w: WheelState, k: nat, id: int)
    requires
        0 <= id < w.tasks.len(),
    ensures
        w.steps(k + 1).tasks[id] == advance_slot(w.steps(k).tasks[id], w.tick + k + 1),
{
    lemma_steps_shape(w, k);
}

/// A task is left alone by every advance before the one to its due tick.
proof fn lemma_waits(w: WheelState, id: int, t: TaskState, k: nat)
    requires
        0 <= id < w.tasks.len(),
        w.tasks[id] == Some(t),
        w.tick + k < t.due,
    ensures
        w.steps(k).tasks[id] == Some(t),
    decreases k,
{
    if k > 0 {
        lemma_waits(w, id, t, (k - 1) as nat);
        lemma_steps_next(w, (k - 1) as nat, id);
    }
}

/// A slot that has left the wheel stays empty.
proof fn lemma_stays_gone(w: WheelState, id: int, from: nat, k: nat)
    requires
        0 <= id < w.tasks.len(),
        w.steps(from).tasks[id] is None,
        from <= k,
    ensures
        w.steps(k).tasks[id] is None,
    decreases k - from,
{
    if k > from {
        lemma_stays_gone(w, id, from, (k - 1) as nat);
        lemma_steps_next(w, (k - 1) as nat, id);
    }
}

/// A running one-shot task due after the current tick fires in exactly one
/// advance, the one that moves the wheel on to its due tick, and is gone
/// from the wheel from then on.
pub proof fn lemma_one_shot(w: WheelState, id: int)
    requires
        0 <= id < w.tasks.len(),
        w.tasks[id] is Some,
        w.tasks[id]->0.repeat is None,
        w.tasks[id]->0.run,
        !w.tasks[id]->0.remove,
        w.tasks[id]->0.due > w.tick,
    ensures
        forall|k: nat| #[trigger] w.fires_in_call(k, id) <==> k == w.tasks[id]->0.due - w.tick,
        forall|k: nat| k >= w.tasks[id]->0.due - w.tick ==> (#[trigger] w.steps(k)).tasks[id] is None,
{
    let t = w.tasks[id]->0;
    let d: nat = (t.due - w.tick) as nat;
    lemma_waits(w, id, t, (d - 1) as nat);
    lemma_steps_next(w, (d - 1) as nat, id);
    assert forall|k: nat| k >= d implies (#[trigger] w.steps(k)).tasks[id] is None by {
        lemma_stays_gone(w, id, d, k);
    }
    assert forall|k: nat| #[trigger] w.fires_in_call(k, id) <==> k == d by {
        if k >= 1 {
            let p = (k - 1) as nat;
            lemma_steps_shape(w, p);
            if p < d - 1 {
                lemma_waits(w, id, t, p);
            } else if p > d - 1 {
                lemma_stays_gone(w, id, d, p);
            }
        }
    }
}

/// `delay(d)` at tick `T` gives a task that fires exactly once: in the
/// advance that moves the wheel on to tick `T + d`, the `d`-th call from
/// now (the first call when `d` is 0); never before and never again.
pub proof fn lemma_delay_fires_once(w: WheelState, d: nat)
    ensures
        forall|k: nat| #[trigger] w.schedule(d, None).fires_in_call(k, w.tasks.len() as int)
            <==> k == at_least_one(d),
        w.schedule(d, None).steps(at_least_one(d)).tick == w.tick + at_least_one(d),
{
    let s = w.schedule(d, None);
    lemma_one_shot(s, w.tasks.len() as int);
    lemma_steps_shape(s, at_least_one(d));
}

/// How far past the tick it was scheduled at a repeating task with interval
/// `r`, scheduled `k` advances ago, is next due.
pub open spec fn ticker_offset(k: nat, r: nat) -> nat {
    (k + r - k % r) as nat
}

proof fn lemma_mod_succ(k: nat, r: nat)
    requires
        r > 0,
    ensures
        k % r < r,
        (k + 1) % r == if k % r == r - 1 { 0 } else { k % r + 1 },
{
    vstd::arithmetic::div_mod::lemma_fundamental_div_mod(k as int, r as int);
    let q = k as int / r as int;
    let m = k as int % r as int;
    if m == r - 1 {
        assert((k + 1) as int == (q + 1) * r + 0) by (nonlinear_arith)
            requires k as int == r * q + m, m == r - 1;
    } else {
        assert((k + 1) as int == q * r + (m + 1)) by (nonlinear_arith)
            requires k as int == r * q + m;
    }
}

proof fn lemma_ticker_state(w: WheelState, r: nat, k: nat)
    requires
        r > 0,
    ensures
        w.schedule(r, Some(r)).steps(k).tasks[w.tasks.len() as int] == Some(
            TaskState { due: w.tick + ticker_offset(k, r), repeat: Some(r), run: true, remove: false },
        ),
    decreases k,
{
    let s = w.schedule(r, Some(r));
    let id = w.tasks.len() as int;
    if k == 0 {
        assert(0nat % r == 0) by {
            vstd::arithmetic::div_mod::lemma_small_mod(0, r);
        }
    } else {
        let p = (k - 1) as nat;
        lemma_ticker_state(w, r, p);
        lemma_steps_next(s, p, id);
        lemma_mod_succ(p, r);
    }
}

/// `ticker(r)` at tick `T`, with `r > 0`, gives a task that fires in the
/// advances to ticks `T + r`, `T + 2r`, ..., that is in calls `r`, `2r`,
/// ..., and in no others, for as long as it is neither stopped nor removed.
pub proof fn lemma_ticker_fires_every(w: WheelState, r: nat)
    requires
        r > 0,
    ensures
        forall|k: nat| #[trigger] w.schedule(r, Some(r)).fires_in_call(k, w.tasks.len() as int)
            <==> (k >= 1 && k % r == 0),
{
    let s = w.schedule(r, Some(r));
    assert forall|k: nat| #[trigger] s.fires_in_call(k, w.tasks.len() as int) <==> (k >= 1 && k % r == 0) by {
        if k >= 1 {
            let p = (k - 1) as nat;
            lemma_ticker_state(w, r, p);
            lemma_steps_shape(s, p);
            lemma_mod_succ(p, r);
        }
    }
}

/// Stopping a task only keeps its callback from running: the task does not
/// fire, and running the advance with the task stopped and starting it
/// again afterwards leaves the wheel just as running the advance with the
/// task started would. A repeating task's next due tick is thus computed
/// as if the suppressed firing had happened.
pub proof fn lemma_stop_keeps_schedule(w: WheelState, id: int)
    ensures
        !w.set_run(id, false).fires(id),
        w.set_run(id, false).advance().set_run(id, true) == w.set_run(id, true).advance(),
{
    let a = w.set_run(id, false).advance().set_run(id, true);
    let b = w.set_run(id, true).advance();
    assert(a.tasks =~= b.tasks);
}

/// Once removed, a task stays removed whatever comes next: an advance, a
/// `start` or `stop` of any task, its own included, another removal or a
/// new task. A removed task never fires.
pub proof fn lemma_retired_stays(w: WheelState, id: int, j: int, b: bool, d: nat, rep: Option<nat>)
    requires
        w.retired(id),
    ensures
        !w.fires(id),
        w.advance().retired(id),
        w.set_run(j, b).retired(id),
        w.set_removed(j).retired(id),
        w.schedule(d, rep).retired(id),
{
}

/// `remove` retires the task behind `id`.
pub proof fn lemma_remove_retires(w: WheelState, id: int)
    requires
        0 <= id < w.tasks.len(),
    ensures
        w.set_removed(id).retired(id),
{
}

proof fn lemma_retired_steps(w: WheelState, id: int, k: nat)
    requires
        w.retired(id),
    ensures
        w.steps(k).retired(id),
        !w.steps(k).fires(id),
    decreases k,
{
    if k > 0 {
        lemma_retired_steps(w, id, (k - 1) as nat);
        lemma_retired_stays(w.steps((k - 1) as nat), id, 0, false, 0, None);
    }
    lemma_retired_stays(w.steps(k), id, 0, false, 0, None);
}

/// After `remove`, the task fires in no later advance, and leaves the wheel
/// in the advance to its due tick.
pub proof fn lemma_removed_never_fires(w: WheelState, id: int)
    requires
        w.valid(),
    ensures
        forall|k: nat| !(#[trigger] w.set_removed(id).steps(k)).fires(id),
        0 <= id < w.tasks.len() && w.tasks[id] is Some ==> forall|k: nat|
            k >= w.tasks[id]->0.due - w.tick ==> (#[trigger] w.set_removed(id).steps(k)).tasks[id] is None,
{
    let s = w.set_removed(id);
    assert forall|k: nat| !(#[trigger] s.steps(k)).fires(id) by {
        lemma_steps_shape(s, k);
        if 0 <= id < w.tasks.len() {
            lemma_retired_steps(s, id, k);
        }
    }
    if 0 <= id < w.tasks.len() && w.tasks[id] is Some {
        let t = s.tasks[id]->0;
        let d: nat = (t.due - w.tick) as nat;
        lemma_waits(s, id, t, (d - 1) as nat);
        lemma_steps_next(s, (d - 1) as nat, id);
        assert forall|k: nat| k >= d implies (#[trigger] s.steps(k)).tasks[id] is None by {
            lemma_stays_gone(s, id, d, k);
        }
    }
}

/// Two one-shot tasks scheduled `k >= 1` and `k + WHEEL_SIZE` ticks ahead
/// share a bucket, yet fire in different calls, `WHEEL_SIZE` apart: calls
/// `k` and `k + WHEEL_SIZE`.
pub proof fn lemma_wraparound(w: WheelState, k: nat)
    requires
        k >= 1,
    ensures
        (w.tick + k) % (WHEEL_SIZE as nat) == (w.tick + k + WHEEL_SIZE as nat) % (WHEEL_SIZE as nat),
        forall|j: nat| #[trigger] w.schedule(k, None).schedule(k + WHEEL_SIZE as nat, None).fires_in_call(
            j,
            w.tasks.len() as int,
        ) <==> j == k,
        forall|j: nat| #[trigger] w.schedule(k, None).schedule(k + WHEEL_SIZE as nat, None).fires_in_call(
            j,
            w.tasks.len() + 1int,
        ) <==> j == k + WHEEL_SIZE as nat,
{
    vstd::arithmetic::div_mod::lemma_mod_add_multiples_vanish((w.tick + k) as int, WHEEL_SIZE as int);
    let s = w.schedule(k, None).schedule(k + WHEEL_SIZE as nat, None);
    lemma_one_shot(s, w.tasks.len() as int);
    lemma_one_shot(s, w.tasks.len() + 1int);
}

} // verus!
