use vstd::prelude::*;

verus! {

/// Number of buckets in the wheel. A task due at tick `t` waits in bucket
/// `t % WHEEL_SIZE`, together with tasks due on other turns of the wheel.
pub const WHEEL_SIZE: usize = 4096;

/// The work a task does when it fires. The wheel calls `invoke` from
/// `Timer::update`, so a slow callback delays every later tick.
pub trait TaskCallback {
    fn invoke(&mut self);
}

/// The scheduling state of one task.
pub struct TaskState {
    /// Tick at which the task is next processed.
    pub due: nat,
    /// Interval between firings; `None` for a one-shot task.
    pub repeat: Option<nat>,
    /// Whether the callback runs when the task comes due.
    pub run: bool,
    /// Whether the task is dropped when it comes due.
    pub remove: bool,
}

/// The wheel as a whole: the current tick, and for each handle ever given
/// out the state of its task, or `None` once the task has left the wheel.
pub struct WheelState {
    pub tick: nat,
    pub tasks: Seq<Option<TaskState>>,
}

/// What one advance does to a single task slot, once the wheel has moved on
/// to `tick`.
pub open spec fn advance_slot(s: Option<TaskState>, tick: nat) -> Option<TaskState> {
    match s {
        Some(t) => if t.due == tick {
            if !t.remove && t.repeat is Some {
                Some(TaskState { due: tick + t.repeat->0, ..t })
            } else {
                None
            }
        } else {
            s
        },
        None => None,
    }
}

/// `d`, or 1 in place of 0.
pub open spec fn at_least_one(d: nat) -> nat {
    if d == 0 {
        1
    } else {
        d
    }
}

impl WheelState {
    /// Every task in the wheel is due after the current tick, and repeats,
    /// if at all, with a positive interval.
    pub open spec fn valid(self) -> bool {
        forall|id: int|
            0 <= id < self.tasks.len() && (#[trigger] self.tasks[id]) is Some ==> {
                &&& self.tasks[id]->0.due > self.tick
                &&& (self.tasks[id]->0.repeat matches Some(r) ==> r > 0)
            }
    }

    /// The task behind handle `id` fires during the next advance, the one
    /// that moves the wheel on to tick `tick + 1`.
    pub open spec fn fires(self, id: int) -> bool {
        &&& 0 <= id < self.tasks.len()
        &&& self.tasks[id] matches Some(t)
        &&& t.due == self.tick + 1
        &&& t.run
        &&& !t.remove
    }

    /// One advance: the tick moves on by one, then every task due at the
    /// new tick is processed.
    pub open spec fn advance(self) -> WheelState {
        WheelState {
            tick: self.tick + 1,
            tasks: Seq::new(self.tasks.len(), |i: int| advance_slot(self.tasks[i], self.tick + 1)),
        }
    }

    /// The `k`-th advance from this state, counting from 1, fires the task
    /// behind `id`.
    pub open spec fn fires_in_call(self, k: nat, id: int) -> bool {
        k >= 1 && self.steps((k - 1) as nat).fires(id)
    }

    /// `id` is a handle of this wheel whose task is marked for removal or
    /// has left the wheel.
    pub open spec fn retired(self, id: int) -> bool {
        &&& 0 <= id < self.tasks.len()
        &&& (self.tasks[id] is Some ==> self.tasks[id]->0.remove)
    }

    /// `k` advances in a row.
    pub open spec fn steps(self, k: nat) -> WheelState
        decreases k,
    {
        if k == 0 {
            self
        } else {
            self.steps((k - 1) as nat).advance()
        }
    }

    /// A new task under the next handle, due `delay` ticks from now; a
    /// delay of zero counts as one, so the task is due on the next advance.
    pub open spec fn schedule(self, delay: nat, repeat: Option<nat>) -> WheelState {
        WheelState {
            tick: self.tick,
            tasks: self.tasks.push(
                Some(TaskState { due: self.tick + at_least_one(delay), repeat, run: true, remove: false }),
            ),
        }
    }

    /// The task behind `id`, if still in the wheel, with `run` set to `run`.
    pub open spec fn set_run(self, id: int, run: bool) -> WheelState {
        if 0 <= id < self.tasks.len() && self.tasks[id] is Some {
            WheelState {
                tick: self.tick,
                tasks: self.tasks.update(id, Some(TaskState { run, ..self.tasks[id]->0 })),
            }
        } else {
            self
        }
    }

    /// The task behind `id`, if still in the wheel, marked for removal.
    pub open spec fn set_removed(self, id: int) -> WheelState {
        if 0 <= id < self.tasks.len() && self.tasks[id] is Some {
            WheelState {
                tick: self.tick,
                tasks: self.tasks.update(
                    id,
                    Some(TaskState { run: false, remove: true, ..self.tasks[id]->0 }),
                ),
            }
        } else {
            self
        }
    }

    /// The next advance stays within the machine's tick counter: the new
    /// tick itself and the next due tick of each repeating task it processes.
    pub open spec fn can_advance(self) -> bool {
        &&& self.tick < usize::MAX
        &&& forall|id: int|
            0 <= id < self.tasks.len() && (#[trigger] self.tasks[id]) is Some
                && self.tasks[id]->0.due == self.tick + 1 && !self.tasks[id]->0.remove
                && self.tasks[id]->0.repeat is Some
                ==> self.tick + 1 + self.tasks[id]->0.repeat->0 <= usize::MAX
    }
}

struct TimerTask<C> {
    remove: bool,
    run: bool,
    delay: usize,
    repeat: Option<usize>,
    callback: C,
}

spec fn opt_nat(o: Option<usize>) -> Option<nat> {
    match o {
        Some(r) => Some(r as nat),
        None => None,
    }
}

impl<C> TimerTask<C> {
    spec fn state(&self) -> TaskState {
        TaskState {
            due: self.delay as nat,
            repeat: opt_nat(self.repeat),
            run: self.run,
            remove: self.remove,
        }
    }

    fn new(delay: usize, repeat: Option<usize>, f: C) -> (r: Self)
        ensures
            r.state() == (TaskState { due: delay as nat, repeat: opt_nat(repeat), run: true, remove: false }),
            r.callback == f,
    {
        TimerTask { remove: false, run: true, delay, repeat, callback: f }
    }
}

spec fn slot_state<C>(s: Option<TimerTask<C>>) -> Option<TaskState> {
    match s {
        Some(t) => Some(t.state()),
        None => None,
    }
}

/// What a sequence holds after a push: what it held, and the pushed item.
proof fn lemma_push_contains(s: Seq<usize>, x: usize)
    ensures
        forall|y: usize| #[trigger] s.push(x).contains(y) <==> (s.contains(y) || y == x),
{
    assert forall|y: usize| #[trigger] s.push(x).contains(y) <==> (s.contains(y) || y == x) by {
        let t = s.push(x);
        if t.contains(y) {
            let k = choose|k: int| 0 <= k < t.len() && t[k] == y;
            if k < s.len() {
                assert(s[k] == y);
            }
        }
        if s.contains(y) {
            let k = choose|k: int| 0 <= k < s.len() && s[k] == y;
            assert(t[k] == y);
        }
        if y == x {
            assert(t[s.len() as int] == y);
        }
    }
}

proof fn lemma_split_at(s: Seq<usize>, j: int)
    requires
        s.no_duplicates(),
        0 <= j < s.len(),
    ensures
        forall|x: usize| #[trigger] s.subrange(j, s.len() as int).contains(x)
            <==> (x == s[j] || s.subrange(j + 1, s.len() as int).contains(x)),
        !s.subrange(j + 1, s.len() as int).contains(s[j]),
        forall|x: usize| #[trigger] s.subrange(0, j + 1).contains(x)
            <==> (x == s[j] || s.subrange(0, j).contains(x)),
        !s.subrange(0, j).contains(s[j]),
{
    let hi = s.subrange(j, s.len() as int);
    let hi1 = s.subrange(j + 1, s.len() as int);
    let lo = s.subrange(0, j);
    let lo1 = s.subrange(0, j + 1);
    assert forall|x: usize| #[trigger] hi.contains(x) <==> (x == s[j] || hi1.contains(x)) by {
        if hi.contains(x) {
            let k = choose|k: int| 0 <= k < hi.len() && hi[k] == x;
            if k > 0 {
                assert(hi1[k - 1] == x);
            }
        }
        if hi1.contains(x) {
            let k = choose|k: int| 0 <= k < hi1.len() && hi1[k] == x;
            assert(hi[k + 1] == x);
        }
        if x == s[j] {
            assert(hi[0] == x);
        }
    }
    assert forall|x: usize| #[trigger] lo1.contains(x) <==> (x == s[j] || lo.contains(x)) by {
        if lo1.contains(x) {
            let k = choose|k: int| 0 <= k < lo1.len() && lo1[k] == x;
            if k < j {
                assert(lo[k] == x);
            }
        }
        if lo.contains(x) {
            let k = choose|k: int| 0 <= k < lo.len() && lo[k] == x;
            assert(lo1[k] == x);
        }
        if x == s[j] {
            assert(lo1[j] == x);
        }
    }
    if hi1.contains(s[j]) {
        let k = choose|k: int| 0 <= k < hi1.len() && hi1[k] == s[j];
        assert(s[k + j + 1] == s[j]);
    }
    if lo.contains(s[j]) {
        let k = choose|k: int| 0 <= k < lo.len() && lo[k] == s[j];
        assert(s[k] == s[j]);
    }
}

/// The caller's grip on one scheduled task, tagged with the `ident` of
/// the timer that gave it out; on a timer with another `ident` it does
/// nothing. Copies refer to the same task.
#[derive(Clone, Copy, Debug)]
pub struct TimerHandle {
    id: usize,
    owner: u64,
}

impl View for TimerHandle {
    type V = nat;

    closed spec fn view(&self) -> nat {
        self.id as nat
    }
}

impl TimerHandle {
    /// Lets the task fire again when it comes due. A task already removed
    /// stays removed.
    pub fn start<C>(&mut self, timer: &mut Timer<C>)
        requires
            old(timer).wf(),
        ensures
            final(timer).wf(),
            final(timer)@ == if old(self).issuer() == old(timer).ident() {
                old(timer)@.set_run(old(self)@ as int, true)
            } else {
                old(timer)@
            },
            final(timer).tick_millis() == old(timer).tick_millis(),
            final(timer).ident() == old(timer).ident(),
            final(self).issuer() == old(self).issuer(),
            final(self)@ == old(self)@,
            forall|i: int| #[trigger] final(timer).callback(i) == old(timer).callback(i),
    {
        if self.owner == timer.ident {
            timer.set_flags(self.id, true, None);
        }
    }

    /// Keeps the task from firing when it comes due. The task stays in the
    /// wheel, and a repeating one is rescheduled as if it had fired.
    pub fn stop<C>(&mut self, timer: &mut Timer<C>)
        requires
            old(timer).wf(),
        ensures
            final(timer).wf(),
            final(timer)@ == if old(self).issuer() == old(timer).ident() {
                old(timer)@.set_run(old(self)@ as int, false)
            } else {
                old(timer)@
            },
            final(timer).tick_millis() == old(timer).tick_millis(),
            final(timer).ident() == old(timer).ident(),
            final(self).issuer() == old(self).issuer(),
            final(self)@ == old(self)@,
            forall|i: int| #[trigger] final(timer).callback(i) == old(timer).callback(i),
    {
        if self.owner == timer.ident {
            timer.set_flags(self.id, false, None);
        }
    }

    /// Cancels the task: it never fires again and leaves the wheel when it
    /// next comes due, repeating or not.
    pub fn remove<C>(&mut self, timer: &mut Timer<C>)
        requires
            old(timer).wf(),
        ensures
            final(timer).wf(),
            final(timer)@ == if old(self).issuer() == old(timer).ident() {
                old(timer)@.set_removed(old(self)@ as int)
            } else {
                old(timer)@
            },
            final(timer).tick_millis() == old(timer).tick_millis(),
            final(timer).ident() == old(timer).ident(),
            final(self).issuer() == old(self).issuer(),
            final(self)@ == old(self)@,
            forall|i: int| #[trigger] final(timer).callback(i) == old(timer).callback(i),
    {
        if self.owner == timer.ident {
            timer.set_flags(self.id, false, Some(true));
        }
    }

    /// The `ident` of the timer that gave out this handle.
    pub closed spec fn issuer(&self) -> u64 {
        self.owner
    }

    pub fn timer_ident(&self) -> (r: u64)
        ensures
            r == self.issuer(),
    {
        self.owner
    }

    /// The position of this handle's task among all tasks ever scheduled
    /// on its timer.
    pub fn id(&self) -> (r: usize)
        ensures
            r == self@,
    {
        self.id
    }
}

/// A timer wheel of `WHEEL_SIZE` buckets, advanced one tick at a time by
/// `update`, with the wall-clock length of a tick that its driver sleeps.
pub struct Timer<C> {
    tick: usize,
    buckets: Vec<Vec<usize>>,
    tasks: Vec<Option<TimerTask<C>>>,
    tick_millis: u64,
    ident: u64,
}

impl<C> View for Timer<C> {
    type V = WheelState;

    closed spec fn view(&self) -> WheelState {
        WheelState {
            tick: self.tick as nat,
            tasks: Seq::new(self.tasks@.len(), |i: int| slot_state(self.tasks@[i])),
        }
    }
}

impl<C> Timer<C> {
    spec fn bucket(&self, b: int) -> Seq<usize> {
        self.buckets@[b]@
    }

    spec fn due_of(&self, id: int) -> nat {
        self.tasks@[id]->0.delay as nat
    }

    spec fn live(&self, id: int) -> bool {
        0 <= id < self.tasks@.len() && self.tasks@[id] is Some
    }

    /// The callback of the task behind `id`, while that task is in the wheel.
    pub closed spec fn callback(&self, id: int) -> Option<C> {
        if 0 <= id < self.tasks@.len() && self.tasks@[id] is Some {
            Some(self.tasks@[id]->0.callback)
        } else {
            None
        }
    }

    /// The tasks are valid (see `WheelState::valid`) and each bucket lists,
    /// once each, exactly the tasks in the wheel whose due tick falls on it.
    pub closed spec fn wf(&self) -> bool {
        &&& self@.valid()
        &&& self.shape()
    }

    /// What a well-formed timer guarantees to its callers.
    pub proof fn lemma_wf(&self)
        requires
            self.wf(),
        ensures
            self@.valid(),
            self@.tick <= usize::MAX,
            self@.tasks.len() <= usize::MAX,
    {
    }

    proof fn lemma_shape_kept(a: &Self, b: &Self)
        requires
            a.shape(),
            a.tasks@ == b.tasks@,
            a.buckets@ == b.buckets@,
        ensures
            b.shape(),
    {
        assert forall|c: int, k: int|
            0 <= c < WHEEL_SIZE && 0 <= k < b.bucket(c).len() implies {
                &&& b.live(#[trigger] b.bucket(c)[k] as int)
                &&& b.due_of(b.bucket(c)[k] as int) % (WHEEL_SIZE as nat) == c
            } by {
            assert(a.live(a.bucket(c)[k] as int));
        }
        assert forall|c: int| 0 <= c < WHEEL_SIZE implies (#[trigger] b.bucket(c)).no_duplicates() by {
            assert(a.bucket(c).no_duplicates());
        }
        assert forall|id: int| #[trigger] b.live(id) implies b.bucket(
            b.due_of(id) as int % (WHEEL_SIZE as int),
        ).contains(id as usize) by {
            assert(a.live(id));
        }
    }

    spec fn shape(&self) -> bool {
        &&& self.tasks@.len() <= usize::MAX
        &&& self.buckets@.len() == WHEEL_SIZE
        &&& forall|b: int, k: int|
            0 <= b < WHEEL_SIZE && 0 <= k < self.bucket(b).len() ==> {
                &&& self.live(#[trigger] self.bucket(b)[k] as int)
                &&& self.due_of(self.bucket(b)[k] as int) % (WHEEL_SIZE as nat) == b
            }
        &&& forall|b: int| 0 <= b < WHEEL_SIZE ==> (#[trigger] self.bucket(b)).no_duplicates()
        &&& forall|id: int|
            #[trigger] self.live(id) ==> self.bucket(
                self.due_of(id) as int % (WHEEL_SIZE as int),
            ).contains(id as usize)
    }

    /// An empty wheel at tick 0 whose driver advances it every
    /// `tick_millis` milliseconds, with `ident` 0.
    pub fn new(tick_millis: u64) -> (r: Self)
        ensures
            r.wf(),
            r@.tick == 0,
            r@.tasks.len() == 0,
            r.tick_millis() == tick_millis,
            r.ident() == 0,
    {
        Self::with_ident(tick_millis, 0)
    }

    /// An empty wheel at tick 0 whose driver advances it every
    /// `tick_millis` milliseconds. Its handles carry `ident`: give each
    /// timer of a program its own, and a handle cannot reach the wrong one.
    pub fn with_ident(tick_millis: u64, ident: u64) -> (r: Self)
        ensures
            r.wf(),
            r@.tick == 0,
            r@.tasks.len() == 0,
            r.tick_millis() == tick_millis,
            r.ident() == ident,
    {
        let mut buckets: Vec<Vec<usize>> = Vec::new();
        let mut i: usize = 0;
        while i < WHEEL_SIZE
            invariant
                i <= WHEEL_SIZE,
                buckets@.len() == i,
                forall|b: int| 0 <= b < i ==> (#[trigger] buckets@[b])@.len() == 0,
            decreases WHEEL_SIZE - i,
        {
            buckets.push(Vec::new());
            i = i + 1;
        }
        let r = Timer { tick: 0, buckets, tasks: Vec::new(), tick_millis, ident };
        assert forall|b: int| 0 <= b < WHEEL_SIZE implies (#[trigger] r.bucket(b)).no_duplicates() by {
            assert(r.bucket(b).len() == 0);
        }
        r
    }

    fn insert(&mut self, due: usize, repeat: Option<usize>, f: C) -> (r: TimerHandle)
        requires
            old(self).wf(),
            old(self)@.tasks.len() < usize::MAX,
            due > old(self)@.tick,
            repeat matches Some(n) ==> n > 0,
        ensures
            final(self).wf(),
            final(self)@ == (WheelState {
                tick: old(self)@.tick,
                tasks: old(self)@.tasks.push(
                    Some(TaskState { due: due as nat, repeat: opt_nat(repeat), run: true, remove: false }),
                ),
            }),
            r@ == old(self)@.tasks.len(),
            r.issuer() == old(self).ident(),
            final(self).tick_millis() == old(self).tick_millis(),
            final(self).ident() == old(self).ident(),
            final(self).callback(r@ as int) == Some(f),
            forall|id: int| 0 <= id < old(self)@.tasks.len() ==> #[trigger] final(self).callback(id) == old(self).callback(id),
    {
        let ghost pre = *self;
        let id = self.tasks.len();
        let task = TimerTask::new(due, repeat, f);
        let ghost st = task.state();
        self.tasks.push(Some(task));
        let b = due % WHEEL_SIZE;
        self.buckets[b].push(id);
        proof {
            assert(self@.tasks =~= pre@.tasks.push(Some(st)));
            assert forall|id: int| 0 <= id < pre@.tasks.len() implies #[trigger] self.callback(id) == pre.callback(id) by {
                assert(self.tasks@[id] == pre.tasks@[id]);
            }
            assert forall|c: int, k: int|
                0 <= c < WHEEL_SIZE && 0 <= k < self.bucket(c).len() implies {
                    &&& self.live(#[trigger] self.bucket(c)[k] as int)
                    &&& self.due_of(self.bucket(c)[k] as int) % (WHEEL_SIZE as nat) == c
                } by {
                if c == b && k == pre.bucket(c).len() {
                } else {
                    assert(self.bucket(c)[k] == pre.bucket(c)[k]);
                    assert(pre.live(pre.bucket(c)[k] as int));
                }
            }
            assert(!pre.bucket(b as int).contains(id)) by {
                if pre.bucket(b as int).contains(id) {
                    let k = choose|k: int| 0 <= k < pre.bucket(b as int).len() && pre.bucket(b as int)[k] == id;
                    assert(pre.live(pre.bucket(b as int)[k] as int));
                }
            }
            assert forall|c: int| 0 <= c < WHEEL_SIZE implies (#[trigger] self.bucket(c)).no_duplicates() by {
                if c != b {
                    assert(self.bucket(c) == pre.bucket(c));
                } else {
                    assert(pre.bucket(c).no_duplicates());
                    assert(self.bucket(c) =~= pre.bucket(c).push(id));
                }
            }
            assert forall|i: int| #[trigger] self.live(i) implies self.bucket(
                self.due_of(i) as int % (WHEEL_SIZE as int),
            ).contains(i as usize) by {
                if i == id {
                    assert(self.bucket(b as int)[pre.bucket(b as int).len() as int] == id);
                } else {
                    assert(pre.live(i));
                    let c = pre.due_of(i) as int % (WHEEL_SIZE as int);
                    assert(pre.bucket(c).contains(i as usize));
                    if c == b {
                        assert(self.bucket(c) =~= pre.bucket(c).push(id));
                    }
                    let k = choose|k: int| 0 <= k < pre.bucket(c).len() && pre.bucket(c)[k] == i as usize;
                    assert(self.bucket(c)[k] == i as usize);
                }
            }
        }
        TimerHandle { id, owner: self.ident }
    }

    /// Schedules `f` to fire once, `delay` ticks from now: during the
    /// advance that moves the wheel on to tick `tick() + delay`. A delay of
    /// zero fires on the very next advance, as a delay of one does.
    pub fn delay(&mut self, delay: usize, f: C) -> (r: TimerHandle)
        requires
            old(self).wf(),
            old(self)@.tasks.len() < usize::MAX,
            old(self)@.tick + at_least_one(delay as nat) <= usize::MAX,
        ensures
            final(self).wf(),
            final(self)@ == old(self)@.schedule(delay as nat, None),
            r@ == old(self)@.tasks.len(),
            r.issuer() == old(self).ident(),
            final(self).tick_millis() == old(self).tick_millis(),
            final(self).ident() == old(self).ident(),
            final(self).callback(r@ as int) == Some(f),
            forall|id: int| 0 <= id < old(self)@.tasks.len() ==> #[trigger] final(self).callback(id) == old(self).callback(id),
    {
        let step = if delay == 0 { 1 } else { delay };
        let due = self.tick + step;
        self.insert(due, None, f)
    }

    /// Schedules `f` to fire every `repeat` ticks, the first time during the
    /// advance that moves the wheel on to tick `tick() + repeat`. A zero interval is refused: nothing is scheduled and
    /// the result is `None`.
    pub fn ticker(&mut self, repeat: usize, f: C) -> (r: Option<TimerHandle>)
        requires
            old(self).wf(),
            old(self)@.tasks.len() < usize::MAX,
            old(self)@.tick + repeat <= usize::MAX,
        ensures
            final(self).wf(),
            final(self).tick_millis() == old(self).tick_millis(),
            final(self).ident() == old(self).ident(),
            repeat == 0 ==> r is None && *final(self) == *old(self),
            repeat > 0 ==> r is Some && r->0@ == old(self)@.tasks.len()
                && final(self)@ == old(self)@.schedule(repeat as nat, Some(repeat as nat))
                && final(self).callback(r->0@ as int) == Some(f) && r->0.issuer() == old(self).ident(),
            forall|id: int| 0 <= id < old(self)@.tasks.len() ==> #[trigger] final(self).callback(id) == old(self).callback(id),
    {
        if repeat == 0 {
            return None;
        }
        let due = self.tick + repeat;
        Some(self.insert(due, Some(repeat), f))
    }

    /// Sets the flags of the task behind `id`, if it is still in the wheel;
    /// its due tick and its bucket stay as they are.
    fn set_flags(&mut self, id: usize, run: bool, remove: Option<bool>)
        requires
            old(self).wf(),
        ensures
            final(self).wf(),
            final(self).tick_millis() == old(self).tick_millis(),
            final(self).ident() == old(self).ident(),
            old(self).live(id as int) ==> final(self)@ == (WheelState {
                tick: old(self)@.tick,
                tasks: old(self)@.tasks.update(
                    id as int,
                    Some(TaskState {
                        run,
                        remove: match remove { Some(x) => x, None => old(self)@.tasks[id as int]->0.remove },
                        ..old(self)@.tasks[id as int]->0
                    }),
                ),
            }),
            !old(self).live(id as int) ==> final(self)@ == old(self)@,
            forall|i: int| #[trigger] final(self).callback(i) == old(self).callback(i),
    {
        let ghost pre = *self;
        if id < self.tasks.len() && self.tasks[id].is_some() {
            let slot = self.tasks[id].take();
            match slot {
                Some(mut t) => {
                    t.run = run;
                    match remove {
                        Some(x) => { t.remove = x; },
                        None => {},
                    }
                    self.tasks[id] = Some(t);
                    proof {
                        assert(self.tasks@ == pre.tasks@.update(id as int, Some(t)));
                        assert forall|i: int| 0 <= i < self.tasks@.len() implies
                            (self.live(i) == pre.live(i) && (self.live(i) ==> self.due_of(i) == pre.due_of(i))) by {
                            if i != id {
                                assert(self.tasks@[i] == pre.tasks@[i]);
                            }
                        }
                        assert(self@.tasks =~= pre@.tasks.update(id as int, Some(t.state())));
                        assert forall|i: int| #[trigger] self.callback(i) == pre.callback(i) by {
                            if i != id {
                                assert(self.tasks@.len() == pre.tasks@.len());
                            }
                        }
                        assert forall|c: int, k: int|
                            0 <= c < WHEEL_SIZE && 0 <= k < self.bucket(c).len() implies {
                                &&& self.live(#[trigger] self.bucket(c)[k] as int)
                                &&& self.due_of(self.bucket(c)[k] as int) % (WHEEL_SIZE as nat) == c
                            } by {
                            assert(pre.live(pre.bucket(c)[k] as int));
                        }
                        assert forall|i: int| #[trigger] self.live(i) implies self.bucket(
                            self.due_of(i) as int % (WHEEL_SIZE as int),
                        ).contains(i as usize) by {
                            assert(pre.live(i));
                        }
                        assert forall|c: int| 0 <= c < WHEEL_SIZE implies (#[trigger] self.bucket(c)).no_duplicates() by {
                            assert(pre.bucket(c).no_duplicates());
                        }
                        assert forall|i: int| 0 <= i < self@.tasks.len() && (#[trigger] self@.tasks[i]) is Some implies {
                            &&& self@.tasks[i]->0.due >= self@.tick
                            &&& (self@.tasks[i]->0.repeat matches Some(r) ==> r > 0)
                        } by {
                            assert(pre@.tasks[i] is Some);
                        }
                    }
                },
                None => {},
            }
        }
    }

    /// Splits bucket `idx` into the tasks due at the current tick and the
    /// tasks due on a later turn of the wheel, keeping their order.
    fn split_due(&self, idx: usize) -> (r: (Vec<usize>, Vec<usize>))
        requires
            self.shape(),
            idx < WHEEL_SIZE,
        ensures
            r.0@.no_duplicates(),
            r.1@.no_duplicates(),
            forall|x: usize| #[trigger] r.0@.contains(x) <==> (self.bucket(idx as int).contains(x)
                && self.due_of(x as int) == self.tick),
            forall|x: usize| #[trigger] r.1@.contains(x) <==> (self.bucket(idx as int).contains(x)
                && self.due_of(x as int) != self.tick),
    {
        let bucket = &self.buckets[idx];
        let ghost b = self.bucket(idx as int);
        let mut ready: Vec<usize> = Vec::new();
        let mut keep: Vec<usize> = Vec::new();
        let mut i: usize = 0;
        while i < bucket.len()
            invariant
                self.shape(),
                idx < WHEEL_SIZE,
                bucket@ == b,
                b == self.bucket(idx as int),
                i <= b.len(),
                ready@.no_duplicates(),
                keep@.no_duplicates(),
                forall|x: usize| #[trigger] ready@.contains(x) <==> (b.subrange(0, i as int).contains(x)
                    && self.due_of(x as int) == self.tick),
                forall|x: usize| #[trigger] keep@.contains(x) <==> (b.subrange(0, i as int).contains(x)
                    && self.due_of(x as int) != self.tick),
            decreases b.len() - i,
        {
            let id = bucket[i];
            let ghost old_ready = ready@;
            let ghost old_keep = keep@;
            proof {
                assert(b.no_duplicates());
                assert(b.subrange(0, i as int + 1) =~= b.subrange(0, i as int).push(id));
                lemma_push_contains(b.subrange(0, i as int), id);
                if b.subrange(0, i as int).contains(id) {
                    let k = choose|k: int| 0 <= k < i && b.subrange(0, i as int)[k] == id;
                    assert(b[k] == b[i as int]);
                }
                assert(self.live(b[i as int] as int));
            }
            match &self.tasks[id] {
                Some(t) => {
                    proof {
                        assert(!ready@.contains(id));
                        assert(!keep@.contains(id));
                    }
                    if t.delay == self.tick {
                        ready.push(id);
                        proof {
                            lemma_push_contains(old_ready, id);
                        }
                    } else {
                        keep.push(id);
                        proof {
                            lemma_push_contains(old_keep, id);
                        }
                    }
                },
                None => {},
            }
            i = i + 1;
        }
        proof {
            assert(b.subrange(0, b.len() as int) =~= b);
        }
        (ready, keep)
    }

    /// Whether the next `update` keeps the tick counter and every due tick
    /// it computes within `usize`.
    pub fn can_update(&self) -> (r: bool)
        requires
            self.wf(),
        ensures
            r == self@.can_advance(),
    {
        if self.tick == usize::MAX {
            return false;
        }
        let next = self.tick + 1;
        let idx = next % WHEEL_SIZE;
        let bucket = &self.buckets[idx];
        let ghost b = self.bucket(idx as int);
        let mut i: usize = 0;
        while i < bucket.len()
            invariant
                self.wf(),
                self.tick < usize::MAX,
                next == self.tick + 1,
                idx == next % WHEEL_SIZE,
                bucket@ == b,
                b == self.bucket(idx as int),
                i <= b.len(),
                forall|k: int| 0 <= k < i ==> #[trigger] self.repeat_fits(b[k] as int),
            decreases b.len() - i,
        {
            let id = bucket[i];
            proof {
                assert(self.live(b[i as int] as int));
            }
            match &self.tasks[id] {
                Some(t) => {
                    if t.delay == next && !t.remove {
                        match t.repeat {
                            Some(n) => {
                                if n > usize::MAX - next {
                                    proof {
                                        assert(!self.repeat_fits(id as int));
                                        assert(self@.tasks[id as int] == slot_state(self.tasks@[id as int]));
                                    }
                                    return false;
                                }
                            },
                            None => {},
                        }
                    }
                },
                None => {},
            }
            i = i + 1;
        }
        proof {
            assert forall|id: int|
                0 <= id < self@.tasks.len() && (#[trigger] self@.tasks[id]) is Some
                    && self@.tasks[id]->0.due == self@.tick + 1 && !self@.tasks[id]->0.remove
                    && self@.tasks[id]->0.repeat is Some
                    implies self@.tick + 1 + self@.tasks[id]->0.repeat->0 <= usize::MAX by {
                assert(self.live(id));
                assert(self@.tasks[id] == slot_state(self.tasks@[id]));
                assert(self.due_of(id) == self.tick + 1);
                assert(self.due_of(id) as int % (WHEEL_SIZE as int) == idx as int);
                assert(self.bucket(self.due_of(id) as int % (WHEEL_SIZE as int)).contains(id as usize));
                assert(b.contains(id as usize));
                let k = choose|k: int| 0 <= k < b.len() && b[k] == id as usize;
                assert(self.repeat_fits(b[k] as int));
                let t = self.tasks@[id]->0;
                assert(self@.tasks[id]->0 == t.state());
                assert(t.repeat is Some);
                assert(self@.tasks[id]->0.repeat->0 == t.repeat->0 as nat);
                assert(b[k] as int == id);
                assert(t.delay == self.tick + 1);
                assert(!t.remove);
            }
        }
        true
    }

    spec fn repeat_fits(&self, id: int) -> bool {
        self.live(id) && self.tasks@[id]->0.delay == self.tick + 1 && !self.tasks@[id]->0.remove
            && self.tasks@[id]->0.repeat is Some
            ==> self.tick + 1 + self.tasks@[id]->0.repeat->0 <= usize::MAX
    }

    /// Advances the wheel by one tick: the tick moves on, and every task due
    /// at the new tick is taken from its bucket. A task that is running and
    /// not removed has its callback's `invoke` called, once; a repeating task
    /// that is not removed goes back into the wheel `repeat` ticks on; every
    /// other one is dropped. Tasks in the same bucket that are due on a later
    /// turn stay. Returns the handles of the tasks whose callbacks were
    /// invoked. `TaskCallback` has no contract, so what `invoke` does to a
    /// callback is not stated; every task that does not fire keeps its
    /// callback as it was.
    pub fn update(&mut self) -> (fired: Vec<usize>)
        where C: TaskCallback
        requires
            old(self).wf(),
            old(self)@.can_advance(),
        ensures
            final(self).wf(),
            final(self)@ == old(self)@.advance(),
            final(self).tick_millis() == old(self).tick_millis(),
            final(self).ident() == old(self).ident(),
            fired@.no_duplicates(),
            forall|id: usize| #[trigger] fired@.contains(id) <==> old(self)@.fires(id as int),
            forall|id: int|
                0 <= id < old(self)@.tasks.len() && !old(self)@.fires(id) && #[trigger] final(self).callback(id) is Some
                    ==> final(self).callback(id) == old(self).callback(id),
    {
        let ghost orig = *self;
        self.tick = self.tick + 1;
        let ghost pre = *self;
        let ghost tk = self.tick as nat;
        proof {
            assert(orig@.tasks =~= pre@.tasks);
            Self::lemma_shape_kept(&orig, &pre);
        }
        let idx = self.tick % WHEEL_SIZE;
        let (ready, keep) = self.split_due(idx);
        self.buckets[idx] = keep;
        let ghost n = ready@.len();
        proof {
            assert forall|x: usize| #[trigger] ready@.contains(x) <==> (pre.live(x as int) && pre.due_of(x as int) == tk) by {
                if pre.live(x as int) && pre.due_of(x as int) == tk {
                    assert(pre.bucket(pre.due_of(x as int) as int % (WHEEL_SIZE as int)).contains(x));
                }
                if pre.bucket(idx as int).contains(x) {
                    let k = choose|k: int| 0 <= k < pre.bucket(idx as int).len() && pre.bucket(idx as int)[k] == x;
                    assert(pre.live(pre.bucket(idx as int)[k] as int));
                }
            }
            assert forall|id: int| 0 <= id < self.tasks@.len() && !ready@.subrange(0, n as int).contains(id as usize)
                implies #[trigger] self@.tasks[id] == advance_slot(pre@.tasks[id], tk) by {
                assert(ready@.subrange(0, n as int) =~= ready@);
                assert(pre@.tasks[id] == slot_state(pre.tasks@[id]));
            }
            assert forall|c: int, k: int|
                0 <= c < WHEEL_SIZE && 0 <= k < self.bucket(c).len() implies {
                    &&& self.live(#[trigger] self.bucket(c)[k] as int)
                    &&& self.due_of(self.bucket(c)[k] as int) % (WHEEL_SIZE as nat) == c
                    &&& self.due_of(self.bucket(c)[k] as int) != tk
                } by {
                if c == idx {
                    assert(keep@.contains(self.bucket(c)[k]));
                    assert(pre.bucket(c).contains(self.bucket(c)[k]));
                    let k2 = choose|k2: int| 0 <= k2 < pre.bucket(c).len() && pre.bucket(c)[k2] == self.bucket(c)[k];
                    assert(pre.live(pre.bucket(c)[k2] as int));
                } else {
                    assert(self.bucket(c) == pre.bucket(c));
                    assert(pre.live(pre.bucket(c)[k] as int));
                }
            }
            assert forall|c: int| 0 <= c < WHEEL_SIZE implies (#[trigger] self.bucket(c)).no_duplicates() by {
                if c != idx {
                    assert(pre.bucket(c).no_duplicates());
                }
            }
            assert forall|id: int| #[trigger] self.live(id) && self.due_of(id) != tk implies self.bucket(
                self.due_of(id) as int % (WHEEL_SIZE as int),
            ).contains(id as usize) by {
                assert(pre.live(id));
                let c = pre.due_of(id) as int % (WHEEL_SIZE as int);
                assert(pre.bucket(c).contains(id as usize));
                if c == idx {
                    assert(keep@.contains(id as usize));
                }
            }
            assert forall|id: int| #[trigger] self.live(id) && self.due_of(id) == tk
                implies ready@.subrange(0, n as int).contains(id as usize) by {
                assert(ready@.subrange(0, n as int) =~= ready@);
                assert(ready@.contains(id as usize));
            }
        }
        let mut fired: Vec<usize> = Vec::new();
        let mut j: usize = 0;
        while j < ready.len()
            invariant
                pre.shape(),
                orig@.can_advance(),
                orig@.valid(),
                orig@.tasks == pre@.tasks,
                orig.tasks == pre.tasks,
                tk == orig.tick + 1,
                tk == pre.tick,
                self.tick == pre.tick,
                self.tick_millis == pre.tick_millis,
                self.ident == pre.ident,
                self.tasks@.len() == pre.tasks@.len(),
                self.buckets@.len() == WHEEL_SIZE,
                j <= ready@.len(),
                n == ready@.len(),
                ready@.no_duplicates(),
                forall|x: usize| #[trigger] ready@.contains(x) <==> (pre.live(x as int) && pre.due_of(x as int) == tk),
                forall|id: int| 0 <= id < self.tasks@.len() && !ready@.subrange(j as int, n as int).contains(id as usize)
                    ==> #[trigger] self@.tasks[id] == advance_slot(pre@.tasks[id], tk),
                forall|id: int| 0 <= id < self.tasks@.len() && ready@.subrange(j as int, n as int).contains(id as usize)
                    ==> #[trigger] self.tasks@[id] == pre.tasks@[id],
                forall|c: int, k: int|
                    0 <= c < WHEEL_SIZE && 0 <= k < self.bucket(c).len() ==> {
                        &&& self.live(#[trigger] self.bucket(c)[k] as int)
                        &&& self.due_of(self.bucket(c)[k] as int) % (WHEEL_SIZE as nat) == c
                        &&& self.due_of(self.bucket(c)[k] as int) != tk
                    },
                forall|c: int| 0 <= c < WHEEL_SIZE ==> (#[trigger] self.bucket(c)).no_duplicates(),
                forall|id: int| #[trigger] self.live(id) && self.due_of(id) != tk ==> self.bucket(
                    self.due_of(id) as int % (WHEEL_SIZE as int),
                ).contains(id as usize),
                forall|id: int| #[trigger] self.live(id) && self.due_of(id) == tk
                    ==> ready@.subrange(j as int, n as int).contains(id as usize),
                fired@.no_duplicates(),
                forall|x: usize| #[trigger] fired@.contains(x) <==> (ready@.subrange(0, j as int).contains(x)
                    && orig@.fires(x as int)),
                forall|i: int| 0 <= i < self.tasks@.len() && (#[trigger] self.tasks@[i]) is Some && !orig@.fires(i)
                    ==> self.tasks@[i]->0.callback == pre.tasks@[i]->0.callback,
            decreases n - j,
        {
            let id = ready[j];
            proof {
                lemma_split_at(ready@, j as int);
                assert(ready@.contains(id));
                assert(self.tasks@[id as int] == pre.tasks@[id as int]);
                assert forall|c: int| 0 <= c < WHEEL_SIZE implies !(#[trigger] self.bucket(c)).contains(id) by {
                    if self.bucket(c).contains(id) {
                        let k = choose|k: int| 0 <= k < self.bucket(c).len() && self.bucket(c)[k] == id;
                        assert(self.live(self.bucket(c)[k] as int));
                    }
                }
            }
            let ghost mid = *self;
            let mut t = self.tasks[id].take().unwrap();
            let ghost t0 = t.state();
            proof {
                assert(pre.tasks@[id as int]->0.state() == t0);
                assert(pre@.tasks[id as int] == slot_state(pre.tasks@[id as int]));
                assert(pre.live(id as int));
                assert(t0.due == tk);
                assert(orig@.tasks[id as int] == pre@.tasks[id as int]);
                assert(t0.repeat matches Some(r) ==> r > 0);
                assert(orig@.fires(id as int) == (t0.run && !t0.remove));
            }
            let ghost old_fired = fired@;
            if t.run && !t.remove {
                t.callback.invoke();
                fired.push(id);
            }
            proof {
                assert forall|x: usize| #[trigger] fired@.contains(x) <==> (ready@.subrange(0, j as int + 1).contains(x)
                    && orig@.fires(x as int)) by {
                    if t0.run && !t0.remove {
                        assert(fired@ == old_fired.push(id));
                        lemma_push_contains(old_fired, id);
                    }
                }
            }
            let resched = !t.remove && t.repeat.is_some();
            if resched {
                let r = t.repeat.unwrap();
                let due = self.tick + r;
                t.delay = due;
                self.tasks[id] = Some(t);
                self.buckets[due % WHEEL_SIZE].push(id);
            }
            proof {
                let nd: nat = if resched { (tk + t0.repeat->0) as nat } else { 0 };
                let new_slot: Option<TaskState> = if resched {
                    Some(TaskState { due: nd, ..t0 })
                } else {
                    None
                };
                assert(advance_slot(pre@.tasks[id as int], tk) == new_slot);
                assert(self@.tasks[id as int] == new_slot) by {
                    assert(self@.tasks[id as int] == slot_state(self.tasks@[id as int]));
                }
                assert(self.live(id as int) == resched);
                assert(resched ==> self.due_of(id as int) == nd && nd != tk);
                let nb: int = nd as int % (WHEEL_SIZE as int);
                assert forall|i: int| 0 <= i < self.tasks@.len() && i != id implies
                    #[trigger] self.tasks@[i] == mid.tasks@[i] by {}
                assert forall|c: int| 0 <= c < WHEEL_SIZE implies
                    #[trigger] self.bucket(c) == (if resched && c == nb { mid.bucket(c).push(id) } else { mid.bucket(c) }) by {
                    if resched && c == nb {
                        assert(self.bucket(c) =~= mid.bucket(c).push(id));
                    }
                }
                // slots not yet processed keep their state
                assert forall|i: int| 0 <= i < self.tasks@.len() && ready@.subrange(j as int + 1, n as int).contains(i as usize)
                    implies #[trigger] self.tasks@[i] == pre.tasks@[i] by {
                    assert(ready@.subrange(j as int, n as int).contains(i as usize));
                    assert(i != id);
                    assert(mid.tasks@[i] == pre.tasks@[i]);
                }
                // slots processed so far hold their state after the advance
                assert forall|i: int| 0 <= i < self.tasks@.len() && !ready@.subrange(j as int + 1, n as int).contains(i as usize)
                    implies #[trigger] self@.tasks[i] == advance_slot(pre@.tasks[i], tk) by {
                    if i != id {
                        assert(!ready@.subrange(j as int, n as int).contains(i as usize));
                        assert(mid@.tasks[i] == advance_slot(pre@.tasks[i], tk));
                        assert(self@.tasks[i] == slot_state(self.tasks@[i]));
                        assert(mid@.tasks[i] == slot_state(mid.tasks@[i]));
                    }
                }
                assert forall|c: int, k: int|
                    0 <= c < WHEEL_SIZE && 0 <= k < self.bucket(c).len() implies {
                        &&& self.live(#[trigger] self.bucket(c)[k] as int)
                        &&& self.due_of(self.bucket(c)[k] as int) % (WHEEL_SIZE as nat) == c
                        &&& self.due_of(self.bucket(c)[k] as int) != tk
                    } by {
                    if resched && c == nb && k == mid.bucket(c).len() {
                        assert(self.bucket(c)[k] == id);
                    } else {
                        assert(self.bucket(c)[k] == mid.bucket(c)[k]);
                        assert(mid.live(mid.bucket(c)[k] as int));
                        assert(mid.bucket(c)[k] != id);
                    }
                }
                assert forall|c: int| 0 <= c < WHEEL_SIZE implies (#[trigger] self.bucket(c)).no_duplicates() by {
                    assert(mid.bucket(c).no_duplicates());
                    assert(!mid.bucket(c).contains(id));
                }
                assert forall|i: int| #[trigger] self.live(i) && self.due_of(i) != tk implies self.bucket(
                    self.due_of(i) as int % (WHEEL_SIZE as int),
                ).contains(i as usize) by {
                    if i == id {
                        assert(self.bucket(nb)[mid.bucket(nb).len() as int] == id);
                    } else {
                        assert(mid.live(i));
                        let c = mid.due_of(i) as int % (WHEEL_SIZE as int);
                        assert(mid.bucket(c).contains(i as usize));
                        let k = choose|k: int| 0 <= k < mid.bucket(c).len() && mid.bucket(c)[k] == i as usize;
                        assert(self.bucket(c)[k] == i as usize);
                    }
                }
                assert forall|i: int| #[trigger] self.live(i) && self.due_of(i) == tk
                    implies ready@.subrange(j as int + 1, n as int).contains(i as usize) by {
                    assert(i != id);
                    assert(mid.live(i));
                    assert(ready@.subrange(j as int, n as int).contains(i as usize));
                }
                assert(fired@.no_duplicates()) by {
                    if t0.run && !t0.remove {
                        assert(!old_fired.contains(id));
                    }
                }
            }
            j = j + 1;
        }
        proof {
            assert(ready@.subrange(n as int, n as int) =~= Seq::<usize>::empty());
            assert(ready@.subrange(0, n as int) =~= ready@);
            assert(self@.tasks =~= orig@.advance().tasks);
            assert forall|x: usize| #[trigger] fired@.contains(x) <==> orig@.fires(x as int) by {
                if orig@.fires(x as int) {
                    assert(orig@.tasks[x as int] == pre@.tasks[x as int]);
                    assert(pre@.tasks[x as int] == slot_state(pre.tasks@[x as int]));
                    assert(ready@.contains(x));
                }
            }
        }
        let ghost last = *self;
        proof {
            assert forall|i: int| #[trigger] self.live(i) implies self.due_of(i) != tk by {
                assert(last.live(i));
                if last.due_of(i) == tk {
                    assert(ready@.subrange(n as int, n as int).contains(i as usize));
                }
            }
            assert forall|i: int| #[trigger] self.live(i) implies self.bucket(
                self.due_of(i) as int % (WHEEL_SIZE as int),
            ).contains(i as usize) by {
                assert(last.live(i));
                assert(self.due_of(i) != tk);
            }
            assert forall|c: int, k: int|
                0 <= c < WHEEL_SIZE && 0 <= k < self.bucket(c).len() implies {
                    &&& self.live(#[trigger] self.bucket(c)[k] as int)
                    &&& self.due_of(self.bucket(c)[k] as int) % (WHEEL_SIZE as nat) == c
                } by {
                assert(last.live(last.bucket(c)[k] as int));
            }
            assert forall|id: int|
                0 <= id < self@.tasks.len() && (#[trigger] self@.tasks[id]) is Some implies {
                    &&& self@.tasks[id]->0.due > self@.tick
                    &&& (self@.tasks[id]->0.repeat matches Some(r) ==> r > 0)
                } by {
                assert(self@.tasks[id] == last@.tasks[id]);
                assert(last@.tasks[id] == advance_slot(pre@.tasks[id], tk));
                assert(pre@.tasks[id] is Some);
                assert(orig@.tasks[id] == pre@.tasks[id]);
                assert(self@.tasks[id] == slot_state(self.tasks@[id]));
                assert(self.live(id));
                assert(self.due_of(id) != tk);
            }
            assert forall|c: int| 0 <= c < WHEEL_SIZE implies (#[trigger] self.bucket(c)).no_duplicates() by {
                assert(last.bucket(c).no_duplicates());
            }
            assert(self@.valid());
            assert(self.tasks@.len() <= usize::MAX);
            assert forall|id: int|
                0 <= id < orig@.tasks.len() && !orig@.fires(id) && #[trigger] self.callback(id) is Some
                    implies self.callback(id) == orig.callback(id) by {
                assert(self.tasks@[id] is Some);
                assert(self@.tasks[id] == slot_state(self.tasks@[id]));
                assert(pre@.tasks[id] == slot_state(pre.tasks@[id]));
                assert(last@.tasks[id] == advance_slot(pre@.tasks[id], tk));
                assert(pre.tasks@[id] is Some);
                assert(self.tasks@[id]->0.callback == pre.tasks@[id]->0.callback);
            }
        }
        fired
    }

    /// The tag that this timer's handles carry.
    pub closed spec fn ident(&self) -> u64 {
        self.ident
    }

    pub fn get_ident(&self) -> (r: u64)
        ensures
            r == self.ident(),
    {
        self.ident
    }

    pub closed spec fn tick_millis(&self) -> u64 {
        self.tick_millis
    }

    /// Wall-clock length of one tick, in milliseconds.
    pub fn tick_duration_millis(&self) -> (r: u64)
        ensures
            r == self.tick_millis(),
    {
        self.tick_millis
    }

    /// How many tasks have been scheduled on this timer so far.
    pub fn task_count(&self) -> (r: usize)
        ensures
            r == self@.tasks.len(),
    {
        self.tasks.len()
    }

    /// The current tick: how many times the wheel has been advanced.
    pub fn tick(&self) -> (r: usize)
        ensures
            r == self@.tick,
    {
        self.tick
    }
}

} // verus!
