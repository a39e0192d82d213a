//! The shared run state, the instrumented access interface, and the engine
//! that drives a worker through a run.

use vstd::prelude::*;

use crate::methods::{is_sort, pyramid_of, run_method, MethodId};
use crate::model::{
    apply_step, apply_steps, lemma_apply_step_permutes, lemma_apply_steps_permutes,
    lemma_apply_steps_push, lemma_apply_steps_take_succ, sorted, step_in_bounds, swap_seq,
    trace_in_bounds, Step,
};

verus! {

/// The sole channel through which an algorithm touches the buffer.  Every
/// access is recorded as a [`Step`], oldest first, so the whole run can be
/// replayed one operation per throttle interval.  The algorithm never sees
/// the control state that paces or aborts the replay.
///
/// Reads and swaps are recorded operations; `len` is a pure query and is
/// deliberately kept off the recorded trace, so a length enquiry is never
/// paced or cancelled.
pub struct Interface {
    data: Vec<u32>,
    trace: Vec<Step>,
    init: Ghost<Seq<u32>>,
}

impl Interface {
    /// The buffer as it stands after the operations recorded so far.
    pub closed spec fn buf(self) -> Seq<u32> {
        self.data@
    }

    /// The operations recorded so far, oldest first.
    pub closed spec fn ops(self) -> Seq<Step> {
        self.trace@
    }

    /// The buffer the interface was created over.
    pub closed spec fn start_buf(self) -> Seq<u32> {
        self.init@
    }

    /// The recorded trace accounts exactly for the state of the buffer:
    /// replaying it over the starting buffer yields the current one, and it
    /// never steps outside the buffer.
    pub open spec fn wf(self) -> bool {
        &&& trace_in_bounds(self.ops(), self.start_buf().len())
        &&& self.buf() == apply_steps(self.start_buf(), self.ops())
        &&& self.buf().len() == self.start_buf().len()
    }

    /// A fresh interface over `data`, with nothing recorded yet.
    pub fn new(data: Vec<u32>) -> (iface: Interface)
        ensures
            iface.wf(),
            iface.buf() == data@,
            iface.start_buf() == data@,
            iface.ops() == Seq::<Step>::empty(),
    {
        let ghost g = data@;
        let iface = Interface { data, trace: Vec::new(), init: Ghost(g) };
        proof {
            assert(apply_steps(g, iface.trace@) == g);
        }
        iface
    }

    /// The value at `i`, recorded as a read.
    pub fn read(&mut self, i: usize) -> (v: u32)
        requires
            old(self).wf(),
            i < old(self).buf().len(),
        ensures
            final(self).wf(),
            v == old(self).buf()[i as int],
            final(self).buf() == old(self).buf(),
            final(self).start_buf() == old(self).start_buf(),
            final(self).ops() == old(self).ops().push(Step::Read(i)),
    {
        let v = self.data[i];
        self.trace.push(Step::Read(i));
        proof {
            lemma_apply_steps_push(self.init@, old(self).trace@, Step::Read(i));
        }
        v
    }

    /// Exchanges the values at `i` and `j`, recorded as a swap.
    pub fn swap(&mut self, i: usize, j: usize)
        requires
            old(self).wf(),
            i < old(self).buf().len(),
            j < old(self).buf().len(),
        ensures
            final(self).wf(),
            final(self).buf() == swap_seq(old(self).buf(), i as int, j as int),
            final(self).start_buf() == old(self).start_buf(),
            final(self).ops() == old(self).ops().push(Step::Swap(i, j)),
    {
        let a = self.data[i];
        let b = self.data[j];
        self.data.set(i, b);
        self.data.set(j, a);
        self.trace.push(Step::Swap(i, j));
        proof {
            lemma_apply_steps_push(self.init@, old(self).trace@, Step::Swap(i, j));
            assert(self.data@ =~= swap_seq(old(self).data@, i as int, j as int));
        }
    }

    /// The buffer length; constant for the lifetime of the interface.
    pub fn len(&self) -> (n: usize)
        ensures
            n == self.buf().len(),
    {
        self.data.len()
    }

    /// The buffer as it stands now.
    pub fn data(&self) -> (d: &Vec<u32>)
        ensures
            d@ == self.buf(),
    {
        &self.data
    }

    /// The operations recorded so far, oldest first.
    pub fn trace(&self) -> (tr: &Vec<Step>)
        ensures
            tr@ == self.ops(),
    {
        &self.trace
    }

    /// Gives up the interface and hands back the recorded trace.
    pub fn into_trace(self) -> (tr: Vec<Step>)
        ensures
            tr@ == self.ops(),
    {
        self.trace
    }
}

/// Everything a run touches, as one snapshot for observers: the buffer, the
/// run status, the last observable step, and optional timing markers in
/// microseconds.  The step event is transient — it is `None` whenever the
/// engine is idle.
#[derive(Clone)]
pub struct State {
    pub sorting: bool,
    pub data: Vec<u32>,
    pub step: Option<Step>,
    pub start_time: Option<u64>,
    pub stop_time: Option<u64>,
}

impl State {
    /// The elapsed run time in microseconds, once both timing markers are
    /// set and ordered.
    pub fn elapsed_micros(&self) -> (e: Option<u64>)
        ensures
            e is Some <==> (self.start_time is Some && self.stop_time is Some
                && self.start_time->0 <= self.stop_time->0),
            e is Some ==> e->0 == self.stop_time->0 - self.start_time->0,
    {
        match (self.start_time, self.stop_time) {
            (Some(a), Some(b)) => if a <= b {
                Some(b - a)
            } else {
                None
            },
            _ => None,
        }
    }
}

/// The in-flight worker: the trace its algorithm produced, how far the
/// replay has published it, and what the run promised of its outcome.  The
/// engine owns it; observers read the engine only through [`State`] and the
/// spec projections below.
pub struct Run {
    trace: Vec<Step>,
    pos: usize,
    track: bool,
    init: Ghost<Seq<u32>>,
    sorts: Ghost<bool>,
}

/// What one worker advance observed.
#[derive(Clone, Copy, PartialEq, Eq, Structural, Debug)]
pub enum TickOutcome {
    /// No worker holds the state: a `stop` invalidated its handle, or none
    /// was ever started.  A worker that sees this unwinds quietly.
    Idle,
    /// One recorded operation was published to the shared state.
    Advanced,
    /// The run finished: status returned to idle and the step event cleared.
    Completed,
}

/// The execution engine.  It owns the shared state, hands the chosen
/// algorithm a fresh [`Interface`] over a scratch copy of the buffer, and
/// then publishes the recorded operations one per throttle interval through
/// [`Sorter::tick`].  `stop` discards whatever was not yet published.
pub struct Sorter {
    pub state: State,
    pub method: Option<MethodId>,
    pub run: Option<Run>,
}

impl Sorter {
    /// A worker currently holds the state.
    pub closed spec fn running(self) -> bool {
        self.run is Some
    }

    /// The operations recorded but not yet published.
    pub closed spec fn pending(self) -> Seq<Step> {
        match self.run {
            Some(r) => r.trace@.skip(r.pos as int),
            None => Seq::<Step>::empty(),
        }
    }

    /// The buffer the current run will end in; the buffer itself when no
    /// run is in flight.
    pub closed spec fn goal(self) -> Seq<u32> {
        match self.run {
            Some(r) => apply_steps(r.init@, r.trace@),
            None => self.state.data@,
        }
    }

    /// The current run was started for a primary algorithm, so its goal is
    /// a sorted buffer.
    pub closed spec fn will_sort(self) -> bool {
        match self.run {
            Some(r) => r.sorts@,
            None => false,
        }
    }

    /// The operations already published to the shared buffer.
    pub closed spec fn published(self) -> Seq<Step> {
        match self.run {
            Some(r) => r.trace@.take(r.pos as int),
            None => Seq::<Step>::empty(),
        }
    }

    /// The buffer the current run started from; the buffer itself when no
    /// run is in flight.
    pub closed spec fn start_data(self) -> Seq<u32> {
        match self.run {
            Some(r) => r.init@,
            None => self.state.data@,
        }
    }

    /// The current run records completion time when it finishes.
    pub closed spec fn tracking(self) -> bool {
        match self.run {
            Some(r) => r.track,
            None => false,
        }
    }

    /// The engine's invariant: status mirrors the presence of a worker, the
    /// step event is cleared when idle and otherwise names the operation
    /// published last, and the buffer is exactly the starting buffer with
    /// the published prefix of the trace replayed over it.
    pub closed spec fn wf(self) -> bool {
        match self.run {
            Some(r) => {
                &&& self.state.sorting
                &&& r.pos <= r.trace.len()
                &&& r.init@.len() == self.state.data@.len()
                &&& trace_in_bounds(r.trace@, r.init@.len())
                &&& self.state.data@ == apply_steps(r.init@, r.trace@.take(r.pos as int))
                &&& (r.sorts@ ==> sorted(apply_steps(r.init@, r.trace@)))
                &&& (if r.pos == 0 {
                    self.state.step is None
                } else {
                    self.state.step == Some(r.trace@[r.pos as int - 1])
                })
            },
            None => {
                &&& !self.state.sorting
                &&& self.state.step is None
            },
        }
    }

    /// Status mirrors the worker, and an idle engine shows no step event.
    pub proof fn lemma_wf_state(self)
        requires
            self.wf(),
        ensures
            self.state.sorting == self.running(),
            !self.state.sorting ==> self.state.step is None,
    {
    }

    /// The buffer reflects exactly the operations published so far, no more:
    /// the starting buffer with the published prefix replayed over it.  The
    /// pending operations, replayed after the published ones, lead to the
    /// run's goal — so stopping mid-run leaves precisely the published
    /// mutations behind.
    pub proof fn lemma_buffer_is_published_prefix(self)
        requires
            self.wf(),
            self.running(),
        ensures
            self.state.data@ == apply_steps(self.start_data(), self.published()),
            self.goal() == apply_steps(self.start_data(), self.published() + self.pending()),
    {
        let r = self.run->0;
        assert(r.trace@.take(r.pos as int) + r.trace@.skip(r.pos as int) =~= r.trace@);
    }

    /// A fresh engine over the given buffer: idle, nothing selected.
    pub fn new(data: Vec<u32>) -> (s: Sorter)
        ensures
            s.wf(),
            !s.state.sorting,
            !s.running(),
            s.state.data@ == data@,
            s.state.step is None,
            s.state.start_time is None,
            s.state.stop_time is None,
            s.method is None,
    {
        Sorter {
            state: State {
                sorting: false,
                data,
                step: None,
                start_time: None,
                stop_time: None,
            },
            method: None,
            run: None,
        }
    }

    /// Selects the algorithm the next `start` will run.  Changing the
    /// selection never disturbs the engine's invariant or a run in flight.
    pub fn set_method(&mut self, m: MethodId)
        ensures
            final(self).method == Some(m),
            final(self).state == old(self).state,
            final(self).run == old(self).run,
            old(self).wf() ==> final(self).wf(),
            final(self).running() == old(self).running(),
            final(self).pending() == old(self).pending(),
            final(self).goal() == old(self).goal(),
            final(self).will_sort() == old(self).will_sort(),
            final(self).tracking() == old(self).tracking(),
    {
        self.method = Some(m);
    }

    /// A snapshot of the run status.
    pub fn is_sorting(&self) -> (b: bool)
        ensures
            b == self.state.sorting,
    {
        self.state.sorting
    }

    /// Begins a run of the selected algorithm: a no-op while one is already
    /// running, otherwise the engine turns to running, optionally stamps the
    /// start time with `now`, and obtains the whole operation trace by
    /// running the algorithm over a scratch copy of the buffer.  The shared
    /// buffer itself is untouched until the worker publishes operations
    /// through [`Sorter::tick`].
    pub fn start(&mut self, track: bool, now: u64)
        requires
            old(self).wf(),
            old(self).method is Some,
        ensures
            final(self).wf(),
            old(self).state.sorting ==> *final(self) == *old(self),
            !old(self).state.sorting ==> {
                &&& final(self).state.sorting
                &&& final(self).running()
                &&& final(self).state.data == old(self).state.data
                &&& final(self).state.step is None
                &&& final(self).state.start_time == (if track {
                    Some(now)
                } else {
                    old(self).state.start_time
                })
                &&& final(self).state.stop_time == old(self).state.stop_time
                &&& final(self).method == old(self).method
                &&& final(self).goal().len() == old(self).state.data@.len()
                &&& final(self).goal().to_multiset() == old(self).state.data@.to_multiset()
                &&& final(self).will_sort() == is_sort(old(self).method->0)
                &&& (final(self).will_sort() ==> sorted(final(self).goal()))
                &&& (old(self).method == Some(MethodId::Invert) ==> final(self).goal() == old(
                    self,
                ).state.data@.reverse())
                &&& (old(self).method == Some(MethodId::Pyramid) ==> final(self).goal()
                    == pyramid_of(old(self).state.data@))
                &&& final(self).tracking() == track
                &&& final(self).published() == Seq::<Step>::empty()
                &&& final(self).start_data() == old(self).state.data@
            },
    {
        if self.state.sorting {
            return ;
        }
        let m = self.method.unwrap();
        let scratch = clone_data(&self.state.data);
        let mut iface = Interface::new(scratch);
        run_method(m, &mut iface);
        let trace = iface.into_trace();
        let ghost init = self.state.data@;
        self.run = Some(
            Run { trace, pos: 0, track, init: Ghost(init), sorts: Ghost(is_sort(m)) },
        );
        self.state.sorting = true;
        if track {
            self.state.start_time = Some(now);
        }
        proof {
            assert(trace@.take(0) =~= Seq::<Step>::empty());
            assert(apply_steps(init, trace@.take(0)) == init);
            lemma_apply_steps_permutes(init, trace@);
        }
    }

    /// One worker advance, the only mutation of the shared buffer.  With no
    /// worker in flight it reports `Idle` and changes nothing: that is how a
    /// cancelled worker discovers its handle is gone.  With operations still
    /// pending it publishes exactly the next one.  With none pending the run
    /// completes: status returns to idle, the step event clears, and `now`
    /// is stamped as the stop time when the run was started with tracking.
    pub fn tick(&mut self, now: u64) -> (outcome: TickOutcome)
        requires
            old(self).wf(),
        ensures
            final(self).wf(),
            final(self).method == old(self).method,
            final(self).state.start_time == old(self).state.start_time,
            final(self).state.data@.len() == old(self).state.data@.len(),
            final(self).state.data@.to_multiset() == old(self).state.data@.to_multiset(),
            !old(self).running() ==> (*final(self) == *old(self) && outcome
                == TickOutcome::Idle),
            old(self).running() && old(self).pending().len() > 0 ==> {
                &&& outcome == TickOutcome::Advanced
                &&& final(self).running()
                &&& final(self).state.sorting
                &&& final(self).start_data() == old(self).start_data()
                &&& final(self).published() == old(self).published().push(
                    old(self).pending()[0],
                )
                &&& final(self).state.data@ == apply_step(
                    old(self).state.data@,
                    old(self).pending()[0],
                )
                &&& final(self).state.step == Some(old(self).pending()[0])
                &&& final(self).pending() == old(self).pending().skip(1)
                &&& final(self).goal() == old(self).goal()
                &&& final(self).will_sort() == old(self).will_sort()
                &&& final(self).tracking() == old(self).tracking()
                &&& final(self).state.stop_time == old(self).state.stop_time
            },
            old(self).running() && old(self).pending().len() == 0 ==> {
                &&& outcome == TickOutcome::Completed
                &&& !final(self).running()
                &&& !final(self).state.sorting
                &&& final(self).state.step is None
                &&& final(self).state.data == old(self).state.data
                &&& final(self).state.data@ == old(self).goal()
                &&& final(self).state.stop_time == (if old(self).tracking() {
                    Some(now)
                } else {
                    old(self).state.stop_time
                })
                &&& (old(self).will_sort() ==> sorted(final(self).state.data@))
            },
    {
        let r_opt = self.run.take();
        match r_opt {
            None => TickOutcome::Idle,
            Some(mut r) => {
                if r.pos < r.trace.len() {
                    let st = r.trace[r.pos];
                    let ghost pre = self.state.data@;
                    match st {
                        Step::Read(_) => {
                        },
                        Step::Swap(a, b) => {
                            proof {
                                assert(step_in_bounds(r.trace@[r.pos as int], r.init@.len()));
                            }
                            let va = self.state.data[a];
                            let vb = self.state.data[b];
                            self.state.data.set(a, vb);
                            self.state.data.set(b, va);
                            proof {
                                assert(self.state.data@ =~= swap_seq(pre, a as int, b as int));
                            }
                        },
                    }
                    self.state.step = Some(st);
                    r.pos = r.pos + 1;
                    proof {
                        lemma_apply_steps_take_succ(
                            r.init@,
                            r.trace@,
                            r.pos as int - 1,
                        );
                        assert(r.trace@.skip(r.pos as int - 1).drop_first() =~= r.trace@.skip(
                            r.pos as int,
                        ));
                        assert(r.trace@.skip(r.pos as int - 1)[0] == r.trace@[r.pos as int - 1]);
                        lemma_apply_step_permutes(pre, r.trace@[r.pos as int - 1]);
                    }
                    self.run = Some(r);
                    TickOutcome::Advanced
                } else {
                    self.state.sorting = false;
                    self.state.step = None;
                    if r.track {
                        self.state.stop_time = Some(now);
                    }
                    proof {
                        assert(r.trace@.take(r.pos as int) =~= r.trace@);
                    }
                    TickOutcome::Completed
                }
            },
        }
    }

    /// Stops the run: status returns to idle at once and the step event is
    /// cleared.  The worker's handle is invalidated — whatever it had not
    /// yet published is discarded, so the buffer keeps exactly the
    /// mutations published so far — and the worker discovers the
    /// cancellation at its next advance.  The buffer and the timing markers
    /// are kept.
    pub fn stop(&mut self)
        requires
            old(self).wf(),
        ensures
            final(self).wf(),
            !final(self).state.sorting,
            !final(self).running(),
            final(self).state.step is None,
            final(self).state.data == old(self).state.data,
            final(self).state.start_time == old(self).state.start_time,
            final(self).state.stop_time == old(self).state.stop_time,
            final(self).method == old(self).method,
    {
        self.state.sorting = false;
        self.state.step = None;
        self.run = None;
    }
}

/// An element-for-element copy of the buffer, for the scratch run.
fn clone_data(v: &Vec<u32>) -> (c: Vec<u32>)
    ensures
        c@ == v@,
{
    let mut c: Vec<u32> = Vec::new();
    let mut i: usize = 0;
    while i < v.len()
        invariant
            i <= v.len(),
            c@ == v@.take(i as int),
        decreases v.len() - i,
    {
        c.push(v[i]);
        proof {
            assert(c@ =~= v@.take(i as int + 1));
        }
        i += 1;
    }
    proof {
        assert(v@.take(v@.len() as int) =~= v@);
    }
    c
}

} // verus!
