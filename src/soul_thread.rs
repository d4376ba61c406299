use vstd::prelude::*;

use crate::same_text;

verus! {

/// A wait requested by a task, in microseconds.
#[derive(Clone, Copy, Debug, PartialEq, Eq, Structural)]
pub struct TemporalPause {
    pub amount_in_micros: u64,
}

/// What a task's generator answers when it is resumed.
#[derive(Clone, Copy, Debug, PartialEq, Eq, Structural)]
pub enum EssenceAspect {
    Running,
    Yielded(TemporalPause),
    Finished,
}

/// The resumable body of a task: an explicit state machine that holds its own
/// captured data and answers the next state each time it is resumed.
pub trait SoulGenerator {
    fn next_aspect(&mut self) -> EssenceAspect;
}

/// The observable state of a task: everything but its generator.
pub struct SoulThreadView {
    pub name: Seq<char>,
    pub state: EssenceAspect,
    pub is_waiting: bool,
    pub amount_to_wait: u64,
}

/// The state a task takes, and the wait `resume` reports, when its generator
/// answers `next`. A yield is transient: the task runs again on the next resume.
/// A `Running` answer ends the resume too, with no wait: the generator is
/// called again on the next update rather than in a loop here, since a loop
/// over user code that may keep answering `Running` need not end.
pub open spec fn settled(next: EssenceAspect) -> (EssenceAspect, Option<TemporalPause>) {
    match next {
        EssenceAspect::Yielded(p) => (EssenceAspect::Running, Some(p)),
        EssenceAspect::Finished => (EssenceAspect::Finished, None),
        EssenceAspect::Running => (EssenceAspect::Running, None),
    }
}

/// Whether an update by `dt` lets a task whose state is `t` resume: it is not
/// waiting, or its wait runs out within `dt`.
pub open spec fn wait_over(t: SoulThreadView, dt: u64) -> bool {
    !t.is_waiting || t.amount_to_wait <= dt
}

/// A task after an update by `dt`, when its generator (if it is called) answers
/// `next`.
pub open spec fn updated(t: SoulThreadView, dt: u64, next: EssenceAspect) -> SoulThreadView {
    if !wait_over(t, dt) {
        SoulThreadView { amount_to_wait: (t.amount_to_wait - dt) as u64, ..t }
    } else if t.state == EssenceAspect::Finished {
        SoulThreadView { is_waiting: false, amount_to_wait: 0, ..t }
    } else {
        match settled(next).1 {
            Some(p) => SoulThreadView {
                state: settled(next).0,
                is_waiting: true,
                amount_to_wait: p.amount_in_micros,
                ..t
            },
            None => SoulThreadView { state: settled(next).0, is_waiting: false, amount_to_wait: 0, ..t },
        }
    }
}

/// Whether `b` is a possible state of task `a` after an update by `dt`: the
/// generator may answer anything.
pub open spec fn update_step(a: SoulThreadView, dt: u64, b: SoulThreadView) -> bool {
    exists|next: EssenceAspect| b == updated(a, dt, next)
}

/// The sum of the tick lengths `ds`.
pub open spec fn total_time(ds: Seq<u64>) -> int
    decreases ds.len(),
{
    if ds.len() == 0 {
        0
    } else {
        total_time(ds.drop_last()) + ds.last()
    }
}

proof fn lemma_total_time_nonneg(ds: Seq<u64>)
    ensures
        total_time(ds) >= 0,
    decreases ds.len(),
{
    if ds.len() > 0 {
        lemma_total_time_nonneg(ds.drop_last());
    }
}

/// Task `t` after updates by each tick length of `ds` in turn, its generator
/// answering `next` whenever it is called.
pub open spec fn after_ticks(t: SoulThreadView, ds: Seq<u64>, next: EssenceAspect) -> SoulThreadView
    decreases ds.len(),
{
    if ds.len() == 0 {
        t
    } else {
        updated(after_ticks(t, ds.drop_last(), next), ds.last(), next)
    }
}

/// A pending wait does not depend on how time is cut into ticks: ticks that
/// add up to less than the wait leave the task waiting, its generator
/// uncalled, with the wait reduced by their sum.
pub proof fn lemma_wait_ignores_tick_sizes(t: SoulThreadView, ds: Seq<u64>, next: EssenceAspect)
    requires
        t.is_waiting,
        total_time(ds) < t.amount_to_wait,
    ensures
        after_ticks(t, ds, next) == (SoulThreadView {
            amount_to_wait: (t.amount_to_wait - total_time(ds)) as u64,
            ..t
        }),
    decreases ds.len(),
{
    lemma_total_time_nonneg(ds);
    if ds.len() > 0 {
        lemma_total_time_nonneg(ds.drop_last());
        assert(total_time(ds.drop_last()) <= total_time(ds));
        lemma_wait_ignores_tick_sizes(t, ds.drop_last(), next);
    } else {
        assert(total_time(ds) == 0);
    }
}

/// What a generator that yields a wait of `w` on each of its first `n - 1`
/// calls, then finishes, answers on call number `calls + 1`.
pub open spec fn countdown_answer(n: nat, w: u64, calls: nat) -> EssenceAspect {
    if calls + 1 < n {
        EssenceAspect::Yielded(TemporalPause { amount_in_micros: w })
    } else {
        EssenceAspect::Finished
    }
}

/// One scheduler tick of `d` on task `t` whose generator is such a countdown
/// and has been called `calls` times: the task and the new count of calls. A
/// finished task is left alone.
pub open spec fn countdown_tick(t: SoulThreadView, calls: nat, n: nat, w: u64, d: u64) -> (SoulThreadView, nat) {
    if t.state == EssenceAspect::Finished {
        (t, calls)
    } else if wait_over(t, d) {
        (updated(t, d, countdown_answer(n, w, calls)), calls + 1)
    } else {
        (updated(t, d, EssenceAspect::Running), calls)
    }
}

/// Each countdown tick is one of the steps that a scheduler tick may take.
pub proof fn lemma_countdown_tick_is_step(t: SoulThreadView, calls: nat, n: nat, w: u64, d: u64)
    ensures
        tick_step(t, d, countdown_tick(t, calls, n, w, d).0),
{
    if t.state != EssenceAspect::Finished {
        if wait_over(t, d) {
            assert(countdown_tick(t, calls, n, w, d).0 == updated(t, d, countdown_answer(n, w, calls)));
        } else {
            assert(countdown_tick(t, calls, n, w, d).0 == updated(t, d, EssenceAspect::Running));
        }
    }
}

/// `k` such ticks in a row.
pub open spec fn countdown_run(t: SoulThreadView, calls: nat, n: nat, w: u64, d: u64, k: nat) -> (SoulThreadView, nat)
    decreases k,
{
    if k == 0 {
        (t, calls)
    } else {
        let p = countdown_run(t, calls, n, w, d, (k - 1) as nat);
        countdown_tick(p.0, p.1, n, w, d)
    }
}

proof fn lemma_countdown_split(t: SoulThreadView, calls: nat, n: nat, w: u64, d: u64, a: nat, b: nat)
    ensures
        countdown_run(t, calls, n, w, d, a + b) == ({
            let p = countdown_run(t, calls, n, w, d, a);
            countdown_run(p.0, p.1, n, w, d, b)
        }),
    decreases b,
{
    if b > 0 {
        lemma_countdown_split(t, calls, n, w, d, a, (b - 1) as nat);
        assert((a + b - 1) as nat == a + (b - 1) as nat);
    }
}

/// A task waiting `j * d` takes `j - 1` ticks of `d` to be left with `d`.
proof fn lemma_countdown_wait(t: SoulThreadView, calls: nat, n: nat, w: u64, d: u64, j: nat, k: nat)
    requires
        t.is_waiting,
        t.state == EssenceAspect::Running,
        d > 0,
        t.amount_to_wait == j * d,
        k < j,
    ensures
        countdown_run(t, calls, n, w, d, k) == (SoulThreadView { amount_to_wait: ((j - k) * d) as u64, ..t }, calls),
    decreases k,
{
    if k > 0 {
        lemma_countdown_wait(t, calls, n, w, d, j, (k - 1) as nat);
        let jk = (j - k) as nat;
        assert((jk + 1) * d == jk * d + d) by (nonlinear_arith);
        assert(jk * d >= d) by (nonlinear_arith)
            requires
                jk >= 1,
                d > 0,
        ;
        assert(j * d <= u64::MAX);
        assert((jk + 1) * d <= j * d) by (nonlinear_arith)
            requires
                jk + 1 <= j,
        ;
        assert(j - (k - 1) == jk + 1);
        assert(((j - (k - 1)) * d) as u64 == (jk + 1) * d);
    } else {
        assert((j - 0) * d == j * d);
    }
}

/// The task after its generator has been called `c` times, for a countdown of
/// `n` calls with waits of `w`.
pub open spec fn countdown_state(t: SoulThreadView, n: nat, w: u64, c: nat) -> SoulThreadView {
    if c < n {
        SoulThreadView { state: EssenceAspect::Running, is_waiting: true, amount_to_wait: w, ..t }
    } else {
        SoulThreadView { state: EssenceAspect::Finished, is_waiting: false, amount_to_wait: 0, ..t }
    }
}

proof fn lemma_countdown_calls(t: SoulThreadView, n: nat, w: u64, d: u64, m: nat, c: nat)
    requires
        t.state == EssenceAspect::Running,
        !t.is_waiting,
        d > 0,
        m >= 1,
        w == m * d,
        1 <= c <= n,
    ensures
        countdown_run(t, 0, n, w, d, (1 + (c - 1) * m) as nat) == (countdown_state(t, n, w, c), c),
    decreases c,
{
    if c == 1 {
        assert(1 + (c - 1) * m == 1) by (nonlinear_arith)
            requires
                c == 1,
        ;
        assert(countdown_run(t, 0, n, w, d, 0) == (t, 0nat));
    } else {
        let c0 = (c - 1) as nat;
        lemma_countdown_calls(t, n, w, d, m, c0);
        let a = (1 + (c0 - 1) * m) as nat;
        assert(1 + (c - 1) * m == a + m) by (nonlinear_arith)
            requires
                c0 == c - 1,
                c0 >= 1,
                a == 1 + (c0 - 1) * m,
        ;
        lemma_countdown_split(t, 0, n, w, d, a, m);
        let s = countdown_state(t, n, w, c0);
        lemma_countdown_wait(s, c0, n, w, d, m, (m - 1) as nat);
        assert((m - (m - 1)) * d == d) by (nonlinear_arith)
            requires
                m >= 1,
        ;
        lemma_countdown_split(s, c0, n, w, d, (m - 1) as nat, 1);
        assert((m - 1) as nat + 1 == m);
    }
}

/// A task whose generator yields a wait of `w` on each of its first `n - 1`
/// calls and then finishes, ticked by a constant `d` that divides `w`: the
/// last call, and so the task's end, comes exactly at tick `1 + (n - 1) * w / d`,
/// after `d + (n - 1) * w` of simulated time, no later than `n * w`, whatever
/// `d` is. The generator is called exactly `n` times, and one tick earlier the
/// task has not finished.
pub proof fn lemma_countdown_ends_on_time(t: SoulThreadView, n: nat, w: u64, d: u64, m: nat)
    requires
        t.state == EssenceAspect::Running,
        !t.is_waiting,
        n >= 1,
        d > 0,
        m >= 1,
        w == m * d,
    ensures
        countdown_run(t, 0, n, w, d, (1 + (n - 1) * m) as nat).0.state == EssenceAspect::Finished,
        countdown_run(t, 0, n, w, d, (1 + (n - 1) * m) as nat).1 == n,
        (1 + (n - 1) * m) * d == d + (n - 1) * w,
        d + (n - 1) * w <= n * w,
        n > 1 ==> countdown_run(t, 0, n, w, d, ((n - 1) * m) as nat).0.state == EssenceAspect::Running,
{
    lemma_countdown_calls(t, n, w, d, m, n);
    assert((1 + (n - 1) * m) * d == d + (n - 1) * w) by (nonlinear_arith)
        requires
            w == m * d,
    ;
    assert(d + (n - 1) * w <= n * w) by (nonlinear_arith)
        requires
            w == m * d,
            m >= 1,
            n >= 1,
    ;
    if n > 1 {
        let c0 = (n - 1) as nat;
        lemma_countdown_calls(t, n, w, d, m, c0);
        let a = (1 + (c0 - 1) * m) as nat;
        assert((n - 1) * m == a + (m - 1)) by (nonlinear_arith)
            requires
                c0 == n - 1,
                c0 >= 1,
                a == 1 + (c0 - 1) * m,
                m >= 1,
        ;
        lemma_countdown_split(t, 0, n, w, d, a, (m - 1) as nat);
        let s = countdown_state(t, n, w, c0);
        if m > 1 {
            lemma_countdown_wait(s, c0, n, w, d, m, (m - 1) as nat);
        }
    }
}

/// A named coroutine task driven by repeated updates.
pub struct SoulThread {
    name: String,
    state: EssenceAspect,
    generator: Box<dyn SoulGenerator>,
    is_waiting: bool,
    amount_to_wait: u64,
}

impl View for SoulThread {
    type V = SoulThreadView;

    closed spec fn view(&self) -> SoulThreadView {
        SoulThreadView {
            name: self.name@,
            state: self.state,
            is_waiting: self.is_waiting,
            amount_to_wait: self.amount_to_wait,
        }
    }
}

impl SoulThread {
    /// A running task that waits for nothing.
    pub fn new(name: &str, generator: Box<dyn SoulGenerator>) -> (r: Self)
        ensures
            r@ == (SoulThreadView {
                name: name@,
                state: EssenceAspect::Running,
                is_waiting: false,
                amount_to_wait: 0,
            }),
    {
        SoulThread {
            name: name.to_string(),
            state: EssenceAspect::Running,
            generator,
            is_waiting: false,
            amount_to_wait: 0,
        }
    }

    pub fn name(&self) -> (r: &String)
        ensures
            r@ == self@.name,
    {
        &self.name
    }

    pub fn state(&self) -> (r: EssenceAspect)
        ensures
            r == self@.state,
    {
        self.state
    }

    pub fn is_finished(&self) -> (r: bool)
        ensures
            r == (self@.state == EssenceAspect::Finished),
    {
        match self.state {
            EssenceAspect::Finished => true,
            _ => false,
        }
    }

    /// Takes the generator's answer `next`: the task's new state and the wait to
    /// report are `settled(next)`.
    pub fn settle(&mut self, next: EssenceAspect) -> (r: Option<TemporalPause>)
        ensures
            final(self)@ == (SoulThreadView { state: settled(next).0, ..old(self)@ }),
            r == settled(next).1,
    {
        match next {
            EssenceAspect::Yielded(p) => {
                self.state = EssenceAspect::Running;
                Some(p)
            },
            EssenceAspect::Finished => {
                self.state = EssenceAspect::Finished;
                None
            },
            EssenceAspect::Running => {
                self.state = EssenceAspect::Running;
                None
            },
        }
    }

    /// Invokes the generator once unless the task has finished; a finished task
    /// stays finished and reports no wait.
    fn resume(&mut self) -> (r: Option<TemporalPause>)
        ensures
            old(self)@.state == EssenceAspect::Finished ==> r is None && final(self)@ == old(self)@,
            old(self)@.state != EssenceAspect::Finished ==> exists|next: EssenceAspect|
                r == settled(next).1 && final(self)@ == (SoulThreadView {
                    state: settled(next).0,
                    ..old(self)@
                }),
    {
        match self.state {
            EssenceAspect::Finished => None,
            _ => {
                let next = self.generator.next_aspect();
                self.settle(next)
            },
        }
    }

    /// Counts `delta` off a pending wait; once no wait is pending, resumes the
    /// task and, when it yields, starts the wait that it asked for.
    pub fn update(&mut self, delta: u64)
        ensures
            update_step(old(self)@, delta, final(self)@),
    {
        if self.is_waiting {
            if self.amount_to_wait > delta {
                self.amount_to_wait = self.amount_to_wait - delta;
                assert(final(self)@ == updated(old(self)@, delta, EssenceAspect::Running));
                return;
            }
            self.is_waiting = false;
        }
        self.amount_to_wait = 0;
        let ghost mid = self@;
        let r = self.resume();
        let ghost after = self@;
        if let Some(p) = r {
            self.is_waiting = true;
            self.amount_to_wait = p.amount_in_micros;
        }
        proof {
            if old(self)@.state == EssenceAspect::Finished {
                assert(self@ == updated(old(self)@, delta, EssenceAspect::Running));
            } else {
                let next = choose|next: EssenceAspect| r == settled(next).1 && after == (SoulThreadView {
                    state: settled(next).0,
                    ..mid
                });
                assert(self@ == updated(old(self)@, delta, next));
            }
        }
    }

    /// Forces the task to finish.
    pub fn stop(&mut self)
        ensures
            final(self)@ == (SoulThreadView { state: EssenceAspect::Finished, ..old(self)@ }),
    {
        self.state = EssenceAspect::Finished;
    }
}

/// The task `a` becomes in a scheduler tick by `dt`: a finished task is left
/// alone, any other one takes an update step.
pub open spec fn tick_step(a: SoulThreadView, dt: u64, b: SoulThreadView) -> bool {
    if a.state == EssenceAspect::Finished {
        b == a
    } else {
        update_step(a, dt, b)
    }
}

pub open spec fn not_finished(t: SoulThreadView) -> bool {
    t.state != EssenceAspect::Finished
}

/// The tasks of `s` that have not finished, in order.
pub open spec fn live_tasks(s: Seq<SoulThreadView>) -> Seq<SoulThreadView> {
    s.filter(|t: SoulThreadView| not_finished(t))
}

/// The task `t` after `stop`.
pub open spec fn stopped(t: SoulThreadView) -> SoulThreadView {
    SoulThreadView { state: EssenceAspect::Finished, ..t }
}

/// Owns the tasks, in the order they were added.
pub struct SoulThreadManager {
    soul_threads: Vec<SoulThread>,
}

impl View for SoulThreadManager {
    type V = Seq<SoulThreadView>;

    closed spec fn view(&self) -> Seq<SoulThreadView> {
        self.soul_threads@.map_values(|t: SoulThread| t@)
    }
}

impl SoulThreadManager {
    pub fn new() -> (r: Self)
        ensures
            r@ == Seq::<SoulThreadView>::empty(),
    {
        let r = SoulThreadManager { soul_threads: Vec::new() };
        assert(r@ =~= Seq::<SoulThreadView>::empty());
        r
    }

    pub fn len(&self) -> (r: usize)
        ensures
            r == self@.len(),
    {
        self.soul_threads.len()
    }

    pub fn add_thread(&mut self, thread: SoulThread)
        ensures
            final(self)@ == old(self)@.push(thread@),
    {
        self.soul_threads.push(thread);
        assert(self@ =~= old(self)@.push(thread@));
    }

    /// Updates every task that has not finished by `delta`, then removes every
    /// finished task.
    pub fn update(&mut self, delta: u64)
        ensures
            exists|mid: Seq<SoulThreadView>|
                #![trigger live_tasks(mid)]
                mid.len() == old(self)@.len()
                && (forall|i: int| 0 <= i < mid.len() ==> tick_step(old(self)@[i], delta, #[trigger] mid[i]))
                && final(self)@ == live_tasks(mid),
    {
        let ghost v0 = self@;
        let mut i: usize = 0;
        while i < self.soul_threads.len()
            invariant
                self.soul_threads@.len() == v0.len(),
                v0 == old(self)@,
                0 <= i <= v0.len(),
                forall|j: int| 0 <= j < i ==> tick_step(v0[j], delta, #[trigger] self.soul_threads@[j]@),
                forall|j: int| i <= j < v0.len() ==> #[trigger] self.soul_threads@[j]@ == v0[j],
            decreases v0.len() - i,
        {
            if !self.soul_threads[i].is_finished() {
                self.soul_threads[i].update(delta);
            }
            i += 1;
        }
        let ghost mid = self@;
        let mut all = Vec::new();
        std::mem::swap(&mut all, &mut self.soul_threads);
        let mut kept: Vec<SoulThread> = Vec::new();
        let ghost pred = |t: SoulThreadView| not_finished(t);
        assert(live_tasks(mid) == mid.filter(pred));
        let ghost mut done: int = 0;
        while all.len() > 0
            invariant
                mid.len() == v0.len(),
                pred == (|t: SoulThreadView| not_finished(t)),
                0 <= done <= mid.len(),
                all@.map_values(|t: SoulThread| t@) == mid.skip(done),
                kept@.map_values(|t: SoulThread| t@) == mid.take(done).filter(pred),
            decreases all@.len(),
        {
            let ghost all0 = all@;
            proof {
                assert(all0.map_values(|t: SoulThread| t@).len() == mid.len() - done);
                assert(all0.map_values(|t: SoulThread| t@)[0] == all0[0]@);
            }
            let t = all.remove(0);
            let ghost kept0 = kept@;
            proof {
                assert(t@ == mid[done]);
                assert(mid.take(done + 1) =~= mid.take(done).push(mid[done]));
                mid.take(done).lemma_filter_push(mid[done], pred);
                assert forall|j: int| 0 <= j < all@.len() implies #[trigger] all@[j]@ == mid.skip(done + 1)[j] by {
                    assert(all@[j] == all0[j + 1]);
                    assert(all0.map_values(|t: SoulThread| t@)[j + 1] == all0[j + 1]@);
                }
                assert(all@.map_values(|t: SoulThread| t@) =~= mid.skip(done + 1));
            }
            if !t.is_finished() {
                kept.push(t);
                assert(pred(mid[done]));
                assert(kept@.map_values(|t: SoulThread| t@) =~= kept0.map_values(|t: SoulThread| t@).push(mid[done]));
            } else {
                assert(!pred(mid[done]));
            }
            proof {
                done = done + 1;
            }
        }
        proof {
            assert(mid.take(done) =~= mid);
        }
        self.soul_threads = kept;
        assert(mid.len() == old(self)@.len()
            && (forall|i: int| 0 <= i < mid.len() ==> tick_step(old(self)@[i], delta, #[trigger] mid[i]))
            && self@ == live_tasks(mid));
    }

    /// Stops every task.
    pub fn stop_all(&mut self)
        ensures
            final(self)@ == old(self)@.map_values(|t: SoulThreadView| stopped(t)),
    {
        let ghost v0 = self@;
        let mut i: usize = 0;
        while i < self.soul_threads.len()
            invariant
                self.soul_threads@.len() == v0.len(),
                v0 == old(self)@,
                0 <= i <= v0.len(),
                forall|j: int| 0 <= j < i ==> #[trigger] self.soul_threads@[j]@ == stopped(v0[j]),
                forall|j: int| i <= j < v0.len() ==> #[trigger] self.soul_threads@[j]@ == v0[j],
            decreases v0.len() - i,
        {
            self.soul_threads[i].stop();
            i += 1;
        }
        assert(self@ =~= v0.map_values(|t: SoulThreadView| stopped(t)));
    }

    /// Stops the first task named `name`, if any.
    pub fn stop_by_name(&mut self, name: &str)
        ensures
            (forall|i: int| 0 <= i < old(self)@.len() ==> old(self)@[i].name != name@)
                ==> final(self)@ == old(self)@,
            forall|i: int| 0 <= i < old(self)@.len() && old(self)@[i].name == name@
                && (forall|j: int| 0 <= j < i ==> old(self)@[j].name != name@)
                ==> final(self)@ == old(self)@.update(i, stopped(old(self)@[i])),
    {
        let ghost v0 = self@;
        let mut i: usize = 0;
        while i < self.soul_threads.len()
            invariant
                self@ == v0,
                v0 == old(self)@,
                0 <= i <= v0.len(),
                forall|j: int| 0 <= j < i ==> v0[j].name != name@,
            decreases v0.len() - i,
        {
            if same_text(self.soul_threads[i].name.as_str(), name) {
                self.soul_threads[i].stop();
                assert(self@ =~= v0.update(i as int, stopped(v0[i as int])));
                return;
            }
            i += 1;
        }
    }
}

} // verus!
