use vstd::prelude::*;
use crate::buffer::{Buffer, BufferView};
use crate::job::{Job, Kind, CEILING_PRIORITY, LETTER_N, fresh, symbol_of, uses_buffer};
use crate::parse::{ParseError, lemma_parsed_fresh, parse_arrivals, parse_spec};
use crate::trace::{Trace, TraceView, push_all};

verus! {

/// The tick at which the simulation stops, whatever is left to do.
pub const HORIZON: usize = 10000;

/// Number of symbols in the content reported for a job that ran without the
/// buffer.
pub const PLACEHOLDER_LEN: usize = 10;

/// Index `i` holds the first job of greatest priority in `q`.
pub open spec fn is_first_max(q: Seq<Job>, i: int) -> bool {
    &&& 0 <= i < q.len()
    &&& forall|k: int| 0 <= k < q.len() ==> #[trigger] q[k].priority <= q[i].priority
    &&& forall|k: int| 0 <= k < i ==> #[trigger] q[k].priority < q[i].priority
}

/// Index `i` holds the first job of least priority in `q`.
pub open spec fn is_first_min(q: Seq<Job>, i: int) -> bool {
    &&& 0 <= i < q.len()
    &&& forall|k: int| 0 <= k < q.len() ==> #[trigger] q[k].priority >= q[i].priority
    &&& forall|k: int| 0 <= k < i ==> #[trigger] q[k].priority > q[i].priority
}

/// The job that the scheduler picks from a non-empty ready queue.
pub open spec fn selected(q: Seq<Job>) -> int {
    choose|i: int| is_first_max(q, i)
}

/// The job that is raised to the ceiling when priority inversion is found.
pub open spec fn lowest(q: Seq<Job>) -> int {
    choose|i: int| is_first_min(q, i)
}

/// Index `i` holds the first job of kind `k` in `q`.
pub open spec fn is_first_of(q: Seq<Job>, k: Kind, i: int) -> bool {
    &&& 0 <= i < q.len()
    &&& q[i].id == k
    &&& forall|m: int| 0 <= m < i ==> #[trigger] q[m].id != k
}

/// The index of the first job of kind `k` in `q`, if there is one.
pub open spec fn first_of(q: Seq<Job>, k: Kind) -> Option<int> {
    if exists|i: int| is_first_of(q, k, i) {
        Some(choose|i: int| is_first_of(q, k, i))
    } else {
        None
    }
}

/// At most one index holds the first job of greatest priority.
pub proof fn lemma_first_max_unique(q: Seq<Job>, i: int, j: int)
    requires
        is_first_max(q, i),
        is_first_max(q, j),
    ensures
        i == j,
{
    if i < j {
        assert(q[i].priority < q[j].priority);
    } else if j < i {
        assert(q[j].priority < q[i].priority);
    }
}

/// Some index at or before `i` holds the first job of greatest priority,
/// when `i` holds a job of greatest priority.
proof fn lemma_first_max_at_or_before(q: Seq<Job>, i: int)
    requires
        0 <= i < q.len(),
        forall|k: int| 0 <= k < q.len() ==> #[trigger] q[k].priority <= q[i].priority,
    ensures
        0 <= selected(q) <= i,
        is_first_max(q, selected(q)),
        q[selected(q)].priority == q[i].priority,
    decreases i,
{
    if exists|k: int| 0 <= k < i && #[trigger] q[k].priority >= q[i].priority {
        let k = choose|k: int| 0 <= k < i && #[trigger] q[k].priority >= q[i].priority;
        lemma_first_max_at_or_before(q, k);
    } else {
        assert(is_first_max(q, i));
        lemma_first_max_unique(q, i, selected(q));
    }
}

/// Of two jobs of equal greatest priority, the later one in the ready queue
/// is never the one picked: the pick is the first job of that priority.
pub proof fn lemma_earlier_of_equal_wins(q: Seq<Job>, i: int, j: int)
    requires
        0 <= i < j < q.len(),
        q[i].priority == q[j].priority,
        forall|k: int| 0 <= k < q.len() ==> #[trigger] q[k].priority <= q[j].priority,
    ensures
        selected(q) <= i,
        selected(q) != j,
        q[selected(q)].priority == q[i].priority,
{
    lemma_first_max_at_or_before(q, i);
}

/// The first job of greatest priority: later jobs of equal priority never win.
pub fn select_index(q: &Vec<Job>) -> (r: usize)
    requires
        q@.len() > 0,
    ensures
        is_first_max(q@, r as int),
        r as int == selected(q@),
{
    let mut best: usize = 0;
    let mut i: usize = 0;
    while i < q.len()
        invariant
            0 <= best < q@.len(),
            best <= i <= q@.len(),
            forall|k: int| 0 <= k < i ==> #[trigger] q@[k].priority <= q@[best as int].priority,
            forall|k: int| 0 <= k < best ==> #[trigger] q@[k].priority < q@[best as int].priority,
        decreases q@.len() - i,
    {
        if q[best].priority < q[i].priority {
            best = i;
        }
        i = i + 1;
    }
    proof {
        assert(is_first_max(q@, best as int));
        lemma_first_max_unique(q@, best as int, selected(q@));
    }
    best
}

/// The first job of least priority.
pub fn lowest_index(q: &Vec<Job>) -> (r: usize)
    requires
        q@.len() > 0,
    ensures
        is_first_min(q@, r as int),
        r as int == lowest(q@),
{
    let mut low: usize = 0;
    let mut i: usize = 0;
    while i < q.len()
        invariant
            0 <= low < q@.len(),
            low <= i <= q@.len(),
            forall|k: int| 0 <= k < i ==> #[trigger] q@[k].priority >= q@[low as int].priority,
            forall|k: int| 0 <= k < low ==> #[trigger] q@[k].priority > q@[low as int].priority,
        decreases q@.len() - i,
    {
        if q[i].priority < q[low].priority {
            low = i;
        }
        i = i + 1;
    }
    proof {
        assert(is_first_min(q@, low as int));
        let c = lowest(q@);
        assert(is_first_min(q@, c));
        if c < low as int {
            assert(q@[c].priority > q@[low as int].priority);
        } else if (low as int) < c {
            assert(q@[low as int].priority > q@[c].priority);
        }
    }
    low
}

/// The first job of kind `k`, if there is one.
pub fn find_kind(q: &Vec<Job>, k: Kind) -> (r: Option<usize>)
    ensures
        r matches Some(i) ==> first_of(q@, k) == Some(i as int),
        r is None ==> first_of(q@, k) is None,
{
    let mut i: usize = 0;
    while i < q.len()
        invariant
            0 <= i <= q@.len(),
            forall|m: int| 0 <= m < i ==> #[trigger] q@[m].id != k,
        decreases q@.len() - i,
    {
        if q[i].id == k {
            proof {
                assert(is_first_of(q@, k, i as int));
                let c = choose|c: int| is_first_of(q@, k, c);
                if c < i as int {
                    assert(q@[c].id != k);
                } else if (i as int) < c {
                    assert(q@[i as int].id != k);
                }
            }
            return Some(i);
        }
        i = i + 1;
    }
    None
}

/// The jobs of `pending` that arrive at tick `t`, in order.
pub open spec fn arriving(pending: Seq<Job>, t: usize) -> Seq<Job> {
    pending.filter(|j: Job| j.arrival == t)
}

/// The jobs of `pending` that do not arrive at tick `t`, in order.
pub open spec fn waiting(pending: Seq<Job>, t: usize) -> Seq<Job> {
    pending.filter(|j: Job| j.arrival != t)
}

/// Moves the jobs of `pending` that arrive at `t` to the end of `ready`, in
/// order, and returns the others, in order.
fn admit_arrivals(pending: &Vec<Job>, ready: &mut Vec<Job>, t: usize) -> (r: Vec<Job>)
    requires
        all_ok(pending@),
        all_ok(old(ready)@),
    ensures
        r@ == waiting(pending@, t),
        final(ready)@ == old(ready)@ + arriving(pending@, t),
        all_ok(r@),
        all_ok(final(ready)@),
{
    let mut rest: Vec<Job> = Vec::new();
    let mut i: usize = 0;
    while i < pending.len()
        invariant
            0 <= i <= pending@.len(),
            rest@ == waiting(pending@.take(i as int), t),
            ready@ == old(ready)@ + arriving(pending@.take(i as int), t),
            all_ok(pending@),
            all_ok(rest@),
            all_ok(ready@),
        decreases pending@.len() - i,
    {
        let j = pending[i];
        proof {
            reveal(Seq::filter);
            assert(pending@.take(i + 1).drop_last() =~= pending@.take(i as int));
            assert(pending@.take(i + 1).last() == j);
        }
        if j.arrival == t {
            ready.push(j);
        } else {
            rest.push(j);
        }
        i = i + 1;
        proof {
            assert(ready@ =~= old(ready)@ + arriving(pending@.take(i as int), t));
        }
    }
    proof {
        assert(pending@.take(i as int) =~= pending@);
    }
    rest
}

/// The whole state of a simulation run.
pub struct Simulation {
    pub clock: usize,
    /// Jobs that have not arrived yet, in order of arrival.
    pub pending: Vec<Job>,
    /// Jobs that have arrived and are not finished, in order of admission.
    pub ready: Vec<Job>,
    pub buffer: Buffer,
    /// Identity of the job at the front of the ready queue after the last tick.
    pub last_running: Option<Kind>,
}

pub struct SimView {
    pub clock: usize,
    pub pending: Seq<Job>,
    pub ready: Seq<Job>,
    pub buffer: BufferView,
    pub last_running: Option<Kind>,
}

impl View for Simulation {
    type V = SimView;

    open spec fn view(&self) -> SimView {
        SimView {
            clock: self.clock,
            pending: self.pending@,
            ready: self.ready@,
            buffer: self.buffer@,
            last_running: self.last_running,
        }
    }
}

/// The progress of `j` that counts toward kind `k`.
pub open spec fn credit(j: Job, k: Kind) -> nat {
    if j.id == k {
        j.progress as nat
    } else {
        0
    }
}

/// The total progress of the jobs of kind `k` in `q`.
pub open spec fn held_progress(q: Seq<Job>, k: Kind) -> nat
    decreases q.len(),
{
    if q.len() == 0 {
        0
    } else {
        held_progress(q.drop_last(), k) + credit(q.last(), k)
    }
}

/// A job that is not finished, and that has a start and a latest tick
/// exactly when it has done some work.
pub open spec fn job_ok(j: Job) -> bool {
    &&& j.progress < j.total_required
    &&& j.last_run.is_some() == (j.progress > 0)
    &&& j.start_time.is_some() == (j.progress > 0)
}

pub open spec fn all_ok(q: Seq<Job>) -> bool {
    forall|i: int| 0 <= i < q.len() ==> job_ok(#[trigger] q[i])
}

impl SimView {
    /// Every queued job is within its work, and the buffer holds no more
    /// symbols than its holder's jobs have done units of work, and none when
    /// nobody holds it.
    pub open spec fn wf(&self) -> bool {
        &&& all_ok(self.pending)
        &&& all_ok(self.ready)
        &&& match self.buffer.holder {
            None => self.buffer.contents.len() == 0,
            Some(k) => uses_buffer(k) && self.buffer.contents.len() <= held_progress(self.ready, k),
        }
    }
}

/// The progress of a kind over two queues put end to end is the sum.
pub proof fn lemma_held_append(a: Seq<Job>, b: Seq<Job>, k: Kind)
    ensures
        held_progress(a + b, k) == held_progress(a, k) + held_progress(b, k),
    decreases b.len(),
{
    if b.len() == 0 {
        assert(a + b =~= a);
    } else {
        assert((a + b).drop_last() =~= a + b.drop_last());
        lemma_held_append(a, b.drop_last(), k);
    }
}

proof fn lemma_held_single(x: Job, k: Kind)
    ensures
        held_progress(seq![x], k) == credit(x, k),
{
    assert(seq![x].drop_last() =~= Seq::<Job>::empty());
    assert(held_progress(Seq::<Job>::empty(), k) == 0);
    assert(seq![x].last() == x);
}

/// Replacing one job changes a kind's progress by the difference of the
/// two jobs' credits.
pub proof fn lemma_held_update(q: Seq<Job>, i: int, x: Job, k: Kind)
    requires
        0 <= i < q.len(),
    ensures
        held_progress(q.update(i, x), k) + credit(q[i], k) == held_progress(q, k) + credit(x, k),
        held_progress(q, k) >= credit(q[i], k),
{
    let a = q.take(i);
    let c = q.skip(i + 1);
    assert(q =~= a + seq![q[i]] + c);
    assert(q.update(i, x) =~= a + seq![x] + c);
    lemma_held_append(a + seq![q[i]], c, k);
    lemma_held_append(a, seq![q[i]], k);
    lemma_held_append(a + seq![x], c, k);
    lemma_held_append(a, seq![x], k);
    lemma_held_single(q[i], k);
    lemma_held_single(x, k);
}

/// Removing one job takes its credit off a kind's progress.
pub proof fn lemma_held_remove(q: Seq<Job>, i: int, k: Kind)
    requires
        0 <= i < q.len(),
    ensures
        held_progress(q.remove(i), k) + credit(q[i], k) == held_progress(q, k),
{
    let a = q.take(i);
    let c = q.skip(i + 1);
    assert(q =~= a + seq![q[i]] + c);
    assert(q.remove(i) =~= a + c);
    lemma_held_append(a + seq![q[i]], c, k);
    lemma_held_append(a, seq![q[i]], k);
    lemma_held_append(a, c, k);
    lemma_held_single(q[i], k);
}

/// The ready queue picks a `T1` job while a `T3` job holds the buffer.
pub open spec fn inverted(q: Seq<Job>, holder: Option<Kind>) -> bool {
    &&& q.len() > 0
    &&& q[selected(q)].id == Kind::T1
    &&& holder == Some(Kind::T3)
}

/// `q` with its lowest job raised to the ceiling priority.
pub open spec fn elevated(q: Seq<Job>) -> Seq<Job> {
    q.update(lowest(q), Job { priority: CEILING_PRIORITY, ..q[lowest(q)] })
}

/// The ready queue after priority inversion is resolved within a tick: while
/// it lasts, the lowest job is raised to the ceiling, at most `fuel` times.
pub open spec fn resolve(q: Seq<Job>, holder: Option<Kind>, fuel: nat) -> Seq<Job>
    decreases fuel,
{
    if fuel > 0 && inverted(q, holder) && q[lowest(q)].priority < CEILING_PRIORITY {
        resolve(elevated(q), holder, (fuel - 1) as nat)
    } else {
        q
    }
}

/// The content shown for a job that finished without the buffer.
pub open spec fn placeholder() -> Seq<u8> {
    Seq::new(PLACEHOLDER_LEN as nat, |_k: int| LETTER_N)
}

/// `n` copies of the symbol of `k`.
pub open spec fn symbol_run(k: Kind, n: nat) -> Seq<u8> {
    Seq::new(n, |_k: int| symbol_of(k))
}

/// What a list of traces reports.
pub open spec fn views(ts: Seq<Trace>) -> Seq<TraceView> {
    ts.map_values(|t: Trace| t@)
}

/// Identity of the job at the front of `q`.
pub open spec fn front(q: Seq<Job>) -> Option<Kind> {
    if q.len() > 0 {
        Some(q[0].id)
    } else {
        None
    }
}

/// The trace that reports the job displaced by a job of kind `now`: the
/// first ready job of the kind `last` that was at the front, unless that kind
/// is `now` or `T1`, or the job has done no work yet.
pub open spec fn preemption(q: Seq<Job>, last: Option<Kind>, now: Kind) -> Seq<TraceView> {
    match last {
        None => seq![],
        Some(p) => match first_of(q, p) {
            None => seq![],
            Some(i) => match q[i].last_run {
                None => seq![],
                Some(r) => if p != now && p != Kind::T1 && q[i].progress > 0 {
                    seq![TraceView { tick: r, id: p, content: symbol_run(p, q[i].progress as nat) }]
                } else {
                    seq![]
                },
            },
        },
    }
}

/// `j` after one unit of work at tick `t`.
pub open spec fn worked(j: Job, t: usize) -> Job {
    Job {
        progress: (j.progress + 1) as usize,
        start_time: if j.start_time.is_none() {
            Some(t)
        } else {
            j.start_time
        },
        last_run: Some(t),
        ..j
    }
}

/// One tick of the simulation: the next state and the traces emitted.
///
/// Jobs arriving now join the ready queue; priority inversion is resolved
/// by raising the lowest job to the ceiling; the first job of greatest
/// priority does one unit of work, with the buffer if it uses it and the
/// buffer is free or already its kind's; a finished job leaves the queue,
/// reports itself, and releases the buffer if it worked with it.
pub open spec fn step_spec(s: SimView) -> (SimView, Seq<TraceView>) {
    let t = s.clock;
    let next = (t + 1) as usize;
    let pending = waiting(s.pending, t);
    let queued = s.ready + arriving(s.pending, t);
    let ready = resolve(queued, s.buffer.holder, queued.len());
    if ready.len() == 0 || inverted(ready, s.buffer.holder) {
        (SimView { clock: next, pending, ready, buffer: s.buffer, last_running: front(ready) }, seq![])
    } else {
        let i = selected(ready);
        let job = ready[i];
        let with_buffer = uses_buffer(job.id) && (s.buffer.holder == Some(job.id)
            || s.buffer.holder.is_none());
        let done = worked(job, t);
        let buffer = if with_buffer {
            BufferView { contents: s.buffer.contents.push(symbol_of(job.id)), holder: Some(job.id) }
        } else {
            s.buffer
        };
        let pre = preemption(ready, s.last_running, job.id);
        if done.progress == done.total_required {
            let rest = ready.remove(i);
            let content = if with_buffer {
                buffer.contents
            } else {
                placeholder()
            };
            let after = if with_buffer {
                BufferView { contents: seq![], holder: None }
            } else {
                buffer
            };
            (
                SimView { clock: next, pending, ready: rest, buffer: after, last_running: front(rest) },
                pre.push(TraceView { tick: t, id: job.id, content }),
            )
        } else {
            let rest = ready.update(i, done);
            (SimView { clock: next, pending, ready: rest, buffer, last_running: front(rest) }, pre)
        }
    }
}

fn repeat_byte(b: u8, n: usize) -> (r: Vec<u8>)
    ensures
        r@ == Seq::new(n as nat, |_k: int| b),
{
    let mut r: Vec<u8> = Vec::new();
    let mut i: usize = 0;
    while i < n
        invariant
            0 <= i <= n,
            r@ == Seq::new(i as nat, |_k: int| b),
        decreases n - i,
    {
        r.push(b);
        i = i + 1;
        proof {
            assert(r@ =~= Seq::new(i as nat, |_k: int| b));
        }
    }
    r
}

fn preemption_of(q: &Vec<Job>, last: Option<Kind>, now: Kind) -> (r: Vec<Trace>)
    ensures
        views(r@) == preemption(q@, last, now),
{
    let mut out: Vec<Trace> = Vec::new();
    proof {
        assert(views(out@) =~= seq![]);
    }
    if let Some(p) = last {
        if let Some(i) = find_kind(q, p) {
            let j = q[i];
            if let Some(r) = j.last_run {
                if p != now && p != Kind::T1 && j.progress > 0 {
                    let content = repeat_byte(p.symbol(), j.progress);
                    out.push(Trace { tick: r, id: p, content });
                    proof {
                        assert(views(out@) =~= preemption(q@, last, now));
                    }
                }
            }
        }
    }
    out
}

impl Simulation {
    /// The state invariant, and the buffer's flag agrees with its holder.
    pub open spec fn wf(&self) -> bool {
        self@.wf() && self.buffer.wf()
    }

    /// Raises the lowest ready job to the ceiling while priority inversion
    /// lasts, at most once per ready job.
    fn resolve_inversion(&mut self)
        requires
            old(self).wf(),
        ensures
            final(self).wf(),
            final(self)@ == (SimView {
                ready: resolve(old(self)@.ready, old(self)@.buffer.holder, old(self)@.ready.len()),
                ..old(self)@
            }),
            final(self).buffer == old(self).buffer,
    {
        let ghost s0 = self@;
        let ghost holder = self.buffer@.holder;
        let mut fuel: usize = self.ready.len();
        let mut go = true;
        while go && fuel > 0
            invariant
                resolve(s0.ready, holder, s0.ready.len()) == resolve(self.ready@, holder, fuel as nat),
                !go ==> resolve(self.ready@, holder, fuel as nat) == self.ready@,
                fuel <= self.ready@.len() == s0.ready.len(),
                all_ok(self.ready@),
                forall|k: Kind| held_progress(self.ready@, k) == held_progress(s0.ready, k),
                self@ == (SimView { ready: self.ready@, ..s0 }),
                self.buffer == old(self).buffer,
                holder == self.buffer@.holder,
            decreases fuel + if go { 1int } else { 0int },
        {
            let sel = select_index(&self.ready);
            if self.ready[sel].id == Kind::T1 && self.buffer.job_does_own(Kind::T3) {
                let low = lowest_index(&self.ready);
                if self.ready[low].priority < CEILING_PRIORITY {
                    let ghost q = self.ready@;
                    let mut j = self.ready[low];
                    j.elevate_priority();
                    self.ready.set(low, j);
                    proof {
                        assert(self.ready@ == elevated(q));
                        assert forall|k: Kind| held_progress(self.ready@, k) == held_progress(s0.ready, k) by {
                            lemma_held_update(q, low as int, j, k);
                        }
                        assert(all_ok(self.ready@)) by {
                            assert forall|m: int| 0 <= m < self.ready@.len() implies job_ok(#[trigger] self.ready@[m]) by {
                                if m != low as int {
                                    assert(self.ready@[m] == q[m]);
                                }
                            }
                        }
                    }
                    fuel = fuel - 1;
                } else {
                    go = false;
                }
            } else {
                go = false;
            }
        }
    }

    /// One tick: see `step_spec`.
    pub fn step(&mut self) -> (r: Vec<Trace>)
        requires
            old(self).wf(),
            old(self).clock < usize::MAX,
        ensures
            final(self).wf(),
            final(self)@ == step_spec(old(self)@).0,
            views(r@) == step_spec(old(self)@).1,
            final(self).clock == old(self).clock + 1,
    {
        let ghost s0 = self@;
        let t = self.clock;
        let rest = admit_arrivals(&self.pending, &mut self.ready, t);
        self.pending = rest;
        proof {
            if let Some(k) = s0.buffer.holder {
                lemma_held_append(s0.ready, arriving(s0.pending, t), k);
            }
        }
        self.resolve_inversion();
        let ghost s1 = self@;
        self.clock = t + 1;
        if self.ready.len() == 0 {
            self.last_running = None;
            let none: Vec<Trace> = Vec::new();
            proof {
                assert(views(none@) =~= seq![]);
            }
            return none;
        }
        let sel = select_index(&self.ready);
        let job = self.ready[sel];
        if job.id == Kind::T1 && self.buffer.job_does_own(Kind::T3) {
            self.last_running = Some(self.ready[0].id);
            let none: Vec<Trace> = Vec::new();
            proof {
                assert(views(none@) =~= seq![]);
            }
            return none;
        }
        let with_buffer = job.id.uses_buffer() && (self.buffer.job_does_own(job.id)
            || !self.buffer.is_held());
        let mut traces = preemption_of(&self.ready, self.last_running, job.id);
        let mut done = job;
        done.progress();
        if done.start_time.is_none() {
            done.start_time = Some(t);
        }
        done.last_run = Some(t);
        if with_buffer {
            self.buffer.set_owner(job.id);
            self.buffer.write_buffer(job.id.symbol(), job.id);
        }
        let ghost b1 = self.buffer@;
        proof {
            assert(done == worked(job, t));
            lemma_held_update(s1.ready, sel as int, done, job.id);
            if let Some(k) = s1.buffer.holder {
                lemma_held_update(s1.ready, sel as int, done, k);
            }
        }
        if done.is_finished() {
            let content = if with_buffer {
                let mut c: Vec<u8> = Vec::new();
                push_all(&mut c, &self.buffer.buf);
                c
            } else {
                repeat_byte(LETTER_N, PLACEHOLDER_LEN)
            };
            let ghost pre = traces@;
            traces.push(Trace { tick: t, id: job.id, content });
            self.ready.remove(sel);
            if with_buffer {
                self.buffer.free_buffer();
            }
            proof {
                assert(views(traces@) =~= views(pre).push(traces@.last()@));
                if let Some(k) = s1.buffer.holder {
                    lemma_held_remove(s1.ready, sel as int, k);
                }
                assert(all_ok(self.ready@)) by {
                    assert forall|m: int| 0 <= m < self.ready@.len() implies job_ok(#[trigger] self.ready@[m]) by {
                        if m < sel as int {
                            assert(self.ready@[m] == s1.ready[m]);
                        } else {
                            assert(self.ready@[m] == s1.ready[m + 1]);
                        }
                    }
                }
            }
        } else {
            self.ready.set(sel, done);
            proof {
                assert(all_ok(self.ready@)) by {
                    assert forall|m: int| 0 <= m < self.ready@.len() implies job_ok(#[trigger] self.ready@[m]) by {
                        if m != sel as int {
                            assert(self.ready@[m] == s1.ready[m]);
                        }
                    }
                }
            }
        }
        self.last_running = if self.ready.len() > 0 {
            Some(self.ready[0].id)
        } else {
            None
        };
        traces
    }

    /// A simulation at tick 0 with `jobs` still to arrive.
    pub fn new(jobs: Vec<Job>) -> (r: Simulation)
        requires
            all_ok(jobs@),
        ensures
            r.wf(),
            r@ == initial(jobs@),
    {
        let r = Simulation {
            clock: 0,
            pending: jobs,
            ready: Vec::new(),
            buffer: Buffer::init(),
            last_running: None,
        };
        proof {
            assert(r.ready@ =~= seq![]);
        }
        r
    }

    /// Ticks until the horizon is reached or every job is done; returns the
    /// traces emitted, in order.
    pub fn run(&mut self) -> (r: Vec<Trace>)
        requires
            old(self).wf(),
        ensures
            final(self).wf(),
            (final(self)@, views(r@)) == run_spec(old(self)@, ticks_left(old(self)@)),
    {
        let ghost s0 = self@;
        let mut out: Vec<Trace> = Vec::new();
        proof {
            assert(views(out@) =~= seq![]);
            assert(seq![] + run_spec(s0, ticks_left(s0)).1 =~= run_spec(s0, ticks_left(s0)).1);
        }
        while self.clock < HORIZON && !(self.pending.len() == 0 && self.ready.len() == 0)
            invariant
                self.wf(),
                run_spec(s0, ticks_left(s0)) == (
                    run_spec(self@, ticks_left(self@)).0,
                    views(out@) + run_spec(self@, ticks_left(self@)).1,
                ),
            decreases ticks_left(self@),
        {
            let ghost before = self@;
            let ghost acc = out@;
            let mut ts = self.step();
            let ghost emitted = ts@;
            out.append(&mut ts);
            proof {
                assert(ticks_left(before) == ticks_left(self@) + 1);
                assert(views(out@) =~= views(acc) + views(emitted));
                assert(views(acc) + (views(emitted) + run_spec(self@, ticks_left(self@)).1)
                    =~= views(out@) + run_spec(self@, ticks_left(self@)).1);
            }
        }
        proof {
            assert(views(out@) + seq![] =~= views(out@));
        }
        out
    }
}

/// A simulation at tick 0 with the jobs of `jobs` still to arrive.
pub open spec fn initial(jobs: Seq<Job>) -> SimView {
    SimView {
        clock: 0,
        pending: jobs,
        ready: seq![],
        buffer: BufferView { contents: seq![], holder: None },
        last_running: None,
    }
}

/// No job is left to arrive or to run.
pub open spec fn all_done(s: SimView) -> bool {
    s.pending.len() == 0 && s.ready.len() == 0
}

/// Ticks left before the horizon.
pub open spec fn ticks_left(s: SimView) -> nat {
    if s.clock < HORIZON {
        (HORIZON - s.clock) as nat
    } else {
        0
    }
}

/// At most `fuel` ticks from `s`, stopping early once every job is done:
/// the last state and the traces emitted, in order.
pub open spec fn run_spec(s: SimView, fuel: nat) -> (SimView, Seq<TraceView>)
    decreases fuel,
{
    if fuel == 0 || all_done(s) {
        (s, seq![])
    } else {
        let (n, t) = step_spec(s);
        let (f, u) = run_spec(n, (fuel - 1) as nat);
        (f, t + u)
    }
}

/// While a `T3` job holds the buffer, the job that works in a tick is never
/// a `T1` job, so no tick reports a `T1` job: `T1` cannot finish before the
/// buffer is released.
pub proof fn lemma_t1_waits_for_release(s: SimView)
    requires
        s.buffer.holder == Some(Kind::T3),
    ensures
        ({
            let queued = s.ready + arriving(s.pending, s.clock);
            let ready = resolve(queued, s.buffer.holder, queued.len());
            ready.len() > 0 && !inverted(ready, s.buffer.holder) ==> ready[selected(ready)].id != Kind::T1
        }),
        forall|i: int| 0 <= i < step_spec(s).1.len() ==> (#[trigger] step_spec(s).1[i]).id != Kind::T1,
{
    let queued = s.ready + arriving(s.pending, s.clock);
    let ready = resolve(queued, s.buffer.holder, queued.len());
    if ready.len() > 0 && !inverted(ready, s.buffer.holder) {
        let job = ready[selected(ready)];
        let pre = preemption(ready, s.last_running, job.id);
        assert forall|i: int| 0 <= i < pre.len() implies (#[trigger] pre[i]).id != Kind::T1 by {}
    }
}

/// Reads a job list and runs it from tick 0 to the horizon, or until every
/// job is done; returns the traces emitted, in order.
pub fn simulate(input: &[u8]) -> (r: Result<Vec<Trace>, ParseError>)
    ensures
        match r {
            Ok(ts) => parse_spec(input@) matches Ok(jobs) && views(ts@) == run_spec(
                initial(jobs),
                HORIZON as nat,
            ).1,
            Err(x) => parse_spec(input@) == Err::<Seq<Job>, ParseError>(x),
        },
{
    match parse_arrivals(input) {
        Err(x) => Err(x),
        Ok(jobs) => {
            proof {
                lemma_parsed_fresh(input@);
                assert(all_ok(jobs@)) by {
                    assert forall|m: int| 0 <= m < jobs@.len() implies job_ok(#[trigger] jobs@[m]) by {
                        assert(fresh(jobs@[m]));
                    }
                }
            }
            let mut sim = Simulation::new(jobs);
            let ts = sim.run();
            Ok(ts)
        },
    }
}

} // verus!
