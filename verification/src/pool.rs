//! How a pool hands work to its threads.
//!
//! The dispatcher and the workers meet at two barriers: at the first before the
//! workers run, at the second once they are done. A worker that passes the
//! first barrier runs the work that the dispatcher left there, or exits where
//! the pool is shutting down.
//!
//! [`next_phase`] is what a worker does next, and [`PoolModel`] puts the steps
//! of all threads together: whatever their order, a broadcast runs its work
//! once on every worker, and nothing runs outside of a broadcast. That threads
//! take the steps of the model is for the reader of their code to see.

use vstd::prelude::*;

verus! {

/// Where a worker stands.
#[derive(Debug, PartialEq, Eq, Structural, Clone, Copy)]
pub enum WorkerPhase {
    /// Waits for work.
    AtStart,
    /// Runs the work.
    Running,
    /// Has run the work, and waits for the others.
    AtDone,
    /// Has left.
    Exited,
}

/// The phase of a worker after the given one.
pub open spec fn phase_after(phase: WorkerPhase, shutdown: bool) -> WorkerPhase {
    match phase {
        WorkerPhase::AtStart => if shutdown {
            WorkerPhase::Exited
        } else {
            WorkerPhase::Running
        },
        WorkerPhase::Running => WorkerPhase::AtDone,
        WorkerPhase::AtDone => WorkerPhase::AtStart,
        WorkerPhase::Exited => WorkerPhase::Exited,
    }
}

/// Decides what a worker does once it is through with `phase`, where `shutdown`
/// says whether the pool is shutting down.
pub fn next_phase(phase: WorkerPhase, shutdown: bool) -> (next: WorkerPhase)
    ensures
        next == phase_after(phase, shutdown),
{
    match phase {
        WorkerPhase::AtStart => if shutdown {
            WorkerPhase::Exited
        } else {
            WorkerPhase::Running
        },
        WorkerPhase::Running => WorkerPhase::AtDone,
        WorkerPhase::AtDone => WorkerPhase::AtStart,
        WorkerPhase::Exited => WorkerPhase::Exited,
    }
}

/// Number of threads that meet at the barriers of a pool: its workers and the
/// dispatcher.
pub fn barrier_size(num_threads: usize) -> (total: usize)
    requires
        0 < num_threads < usize::MAX,
    ensures
        total == num_threads + 1,
{
    num_threads + 1
}

/// A worker that has run `ran` broadcasts to their end.
pub struct Worker {
    pub phase: WorkerPhase,
    pub ran: nat,
}

/// Where the dispatcher stands, after `rounds` broadcasts.
pub enum Dispatcher {
    /// Not in a broadcast.
    Idle { rounds: nat },
    /// Has left work, and waits for the workers to take it.
    AtStart { rounds: nat },
    /// Waits for the workers to be done.
    AtDone { rounds: nat },
    /// Has asked the workers to exit, and waits for them.
    Stopping { rounds: nat },
    /// Has let the workers go.
    Stopped { rounds: nat },
}

impl Worker {
    /// How often the worker has arrived at the first barrier.
    pub open spec fn start_arrivals(self) -> nat {
        if self.phase is AtDone {
            self.ran
        } else {
            self.ran + 1
        }
    }

    /// How often the worker has arrived at the second barrier.
    pub open spec fn done_arrivals(self) -> nat {
        self.ran
    }
}

impl Dispatcher {
    /// Number of broadcasts that have ended.
    pub open spec fn rounds(self) -> nat {
        match self {
            Dispatcher::Idle { rounds } => rounds,
            Dispatcher::AtStart { rounds } => rounds,
            Dispatcher::AtDone { rounds } => rounds,
            Dispatcher::Stopping { rounds } => rounds,
            Dispatcher::Stopped { rounds } => rounds,
        }
    }

    /// How often the dispatcher has arrived at the first barrier.
    pub open spec fn start_arrivals(self) -> nat {
        if self is Idle {
            self.rounds()
        } else {
            self.rounds() + 1
        }
    }

    /// How often the dispatcher has arrived at the second barrier.
    pub open spec fn done_arrivals(self) -> nat {
        if self is AtDone {
            self.rounds() + 1
        } else {
            self.rounds()
        }
    }
}

/// Where all threads of a pool stand.
pub struct PoolModel {
    pub dispatcher: Dispatcher,
    pub shutdown: bool,
    pub workers: Seq<Worker>,
}

impl PoolModel {
    /// Whether the first barrier lets threads pass for the `n`th time: all have
    /// arrived that often.
    pub open spec fn start_open(self, n: nat) -> bool {
        &&& self.dispatcher.start_arrivals() >= n
        &&& forall|w: int|
            0 <= w < self.workers.len() ==> (#[trigger] self.workers[w]).start_arrivals() >= n
    }

    /// Whether the second barrier lets threads pass for the `n`th time: all
    /// have arrived that often.
    pub open spec fn done_open(self, n: nat) -> bool {
        &&& self.dispatcher.done_arrivals() >= n
        &&& forall|w: int|
            0 <= w < self.workers.len() ==> (#[trigger] self.workers[w]).done_arrivals() >= n
    }

    /// A pool that nobody has used.
    pub open spec fn is_new(self) -> bool {
        &&& self.dispatcher == (Dispatcher::Idle { rounds: 0 })
        &&& !self.shutdown
        &&& forall|w: int|
            0 <= w < self.workers.len() ==> (#[trigger] self.workers[w]) == (Worker {
                phase: WorkerPhase::AtStart,
                ran: 0,
            })
    }

    /// Whether worker `w` can go on: it is not held up at a barrier.
    pub open spec fn worker_can_go_on(self, w: int) -> bool {
        0 <= w < self.workers.len() && match self.workers[w].phase {
            WorkerPhase::AtStart => self.start_open(self.workers[w].ran + 1),
            WorkerPhase::Running => true,
            WorkerPhase::AtDone => self.done_open(self.workers[w].ran),
            WorkerPhase::Exited => false,
        }
    }

    /// Worker `w` goes on to its next phase.
    pub open spec fn worker_step(self, next: PoolModel, w: int) -> bool {
        let worker = self.workers[w];
        &&& self.worker_can_go_on(w)
        &&& next.dispatcher == self.dispatcher
        &&& next.shutdown == self.shutdown
        &&& next.workers == self.workers.update(
            w,
            Worker {
                phase: phase_after(worker.phase, self.shutdown),
                ran: if worker.phase is Running {
                    worker.ran + 1
                } else {
                    worker.ran
                },
            },
        )
    }

    /// Whether the dispatcher can go on: it is not held up at a barrier.
    pub open spec fn dispatcher_can_go_on(self) -> bool {
        match self.dispatcher {
            Dispatcher::Idle { .. } => true,
            Dispatcher::AtStart { rounds } => self.start_open(rounds + 1),
            Dispatcher::AtDone { rounds } => self.done_open(rounds + 1),
            Dispatcher::Stopping { rounds } => self.start_open(rounds + 1),
            Dispatcher::Stopped { .. } => false,
        }
    }

    /// The dispatcher goes on. When it is idle it starts a broadcast, or shuts
    /// the pool down.
    pub open spec fn dispatcher_step(self, next: PoolModel) -> bool {
        &&& self.dispatcher_can_go_on()
        &&& next.workers == self.workers
        &&& match self.dispatcher {
            Dispatcher::Idle { rounds } => {
                ||| next.dispatcher == (Dispatcher::AtStart { rounds }) && next.shutdown
                    == self.shutdown
                ||| next.dispatcher == (Dispatcher::Stopping { rounds }) && next.shutdown
            },
            Dispatcher::AtStart { rounds } => next.dispatcher == (Dispatcher::AtDone { rounds })
                && next.shutdown == self.shutdown,
            Dispatcher::AtDone { rounds } => next.dispatcher == (Dispatcher::Idle {
                rounds: rounds + 1,
            }) && next.shutdown == self.shutdown,
            Dispatcher::Stopping { rounds } => next.dispatcher == (Dispatcher::Stopped { rounds })
                && next.shutdown == self.shutdown,
            Dispatcher::Stopped { .. } => false,
        }
    }

    /// Dispatcher and workers keep in step.
    pub open spec fn in_step(self) -> bool {
        &&& self.shutdown == (self.dispatcher is Stopping || self.dispatcher is Stopped)
        &&& forall|w: int|
            0 <= w < self.workers.len() ==> keeps_up(#[trigger] self.workers[w], self.dispatcher)
    }
}

/// Where a worker may stand while the dispatcher stands where it does.
pub open spec fn keeps_up(worker: Worker, dispatcher: Dispatcher) -> bool {
    let rounds = dispatcher.rounds();
    match dispatcher {
        Dispatcher::Idle { .. } => worker.ran == rounds && (worker.phase is AtStart
            || worker.phase is AtDone),
        Dispatcher::AtStart { .. } => {
            ||| worker.ran == rounds && !(worker.phase is Exited)
            ||| worker.ran == rounds + 1 && worker.phase is AtDone
        },
        Dispatcher::AtDone { .. } => {
            ||| worker.ran == rounds && (worker.phase is AtStart || worker.phase is Running)
            ||| worker.ran == rounds + 1 && (worker.phase is AtDone || worker.phase is AtStart)
        },
        Dispatcher::Stopping { .. } => worker.ran == rounds && !(worker.phase is Running),
        Dispatcher::Stopped { .. } => worker.ran == rounds && (worker.phase is AtStart
            || worker.phase is Exited),
    }
}

/// The threads of a new pool are in step.
pub proof fn law_new_pool_is_in_step(pool: PoolModel)
    requires
        pool.is_new(),
    ensures
        pool.in_step(),
{
}

/// Every step of every worker keeps the threads in step.
pub proof fn law_worker_steps_keep_step(pool: PoolModel, next: PoolModel, w: int)
    requires
        pool.in_step(),
        pool.worker_step(next, w),
    ensures
        next.in_step(),
{
    assert(keeps_up(pool.workers[w], pool.dispatcher));
    assert(keeps_up(next.workers[w], next.dispatcher));
    assert forall|v: int| 0 <= v < next.workers.len() implies keeps_up(
        #[trigger] next.workers[v],
        next.dispatcher,
    ) by {
        if v != w {
            assert(next.workers[v] == pool.workers[v]);
        }
    }
}

/// Every step of the dispatcher keeps the threads in step.
pub proof fn law_dispatcher_steps_keep_step(pool: PoolModel, next: PoolModel)
    requires
        pool.in_step(),
        pool.dispatcher_step(next),
    ensures
        next.in_step(),
{
    assert forall|v: int| 0 <= v < next.workers.len() implies keeps_up(
        #[trigger] next.workers[v],
        next.dispatcher,
    ) by {
        assert(keeps_up(pool.workers[v], pool.dispatcher));
        assert(pool.dispatcher_can_go_on());
        assert(pool.workers[v].start_arrivals() >= 0 && pool.workers[v].done_arrivals() >= 0);
    }
}

/// A broadcast runs its work once on every worker and blocks until all are
/// done: after as many broadcasts as have ended, every worker has run exactly
/// that many, and none is running.
pub proof fn law_broadcast_runs_every_worker_once(pool: PoolModel, w: int)
    requires
        pool.in_step(),
        pool.dispatcher is Idle,
        0 <= w < pool.workers.len(),
    ensures
        pool.workers[w].ran == pool.dispatcher.rounds(),
        !(pool.workers[w].phase is Running),
{
    assert(keeps_up(pool.workers[w], pool.dispatcher));
}

/// Work runs only while the broadcast that left it is in progress: a running
/// worker runs the work of the current broadcast, and the dispatcher is still
/// in it.
pub proof fn law_work_runs_only_inside_its_broadcast(pool: PoolModel, w: int)
    requires
        pool.in_step(),
        0 <= w < pool.workers.len(),
        pool.workers[w].phase is Running,
    ensures
        pool.dispatcher is AtStart || pool.dispatcher is AtDone,
        pool.workers[w].ran == pool.dispatcher.rounds(),
{
    assert(keeps_up(pool.workers[w], pool.dispatcher));
}

/// Nothing runs once the pool shuts down, and a worker that goes on from the
/// first barrier exits.
pub proof fn law_nothing_runs_after_shutdown(pool: PoolModel, next: PoolModel, w: int)
    requires
        pool.in_step(),
        pool.shutdown,
        0 <= w < pool.workers.len(),
    ensures
        !(pool.workers[w].phase is Running),
        pool.worker_step(next, w) && pool.workers[w].phase is AtStart ==> next.workers[w].phase
            is Exited,
{
    assert(keeps_up(pool.workers[w], pool.dispatcher));
}

/// The pool never gets stuck: some thread can go on, unless the pool has been
/// shut down and every worker has exited.
pub proof fn law_pool_never_gets_stuck(pool: PoolModel)
    requires
        pool.in_step(),
    ensures
        pool.dispatcher_can_go_on() || (exists|w: int| #[trigger] pool.worker_can_go_on(w)) || (
        pool.dispatcher is Stopped && forall|w: int|
            0 <= w < pool.workers.len() ==> (#[trigger] pool.workers[w]).phase is Exited),
{
    let rounds = pool.dispatcher.rounds();
    let workers = pool.workers;
    assert forall|w: int| 0 <= w < workers.len() implies keeps_up(
        #[trigger] workers[w],
        pool.dispatcher,
    ) by {}
    if exists|w: int| 0 <= w < workers.len() && (#[trigger] workers[w]).phase is Running {
        let w = choose|w: int| 0 <= w < workers.len() && (#[trigger] workers[w]).phase is Running;
        assert(pool.worker_can_go_on(w));
    } else if exists|w: int|
        0 <= w < workers.len() && (#[trigger] workers[w]).phase is AtDone && workers[w].ran
            == rounds {
        let w = choose|w: int|
            0 <= w < workers.len() && (#[trigger] workers[w]).phase is AtDone && workers[w].ran
                == rounds;
        assert(pool.done_open(rounds));
        assert(pool.worker_can_go_on(w));
    } else if exists|w: int|
        0 <= w < workers.len() && (#[trigger] workers[w]).phase is AtStart && workers[w].ran
            == rounds && !(pool.dispatcher is Idle) {
        let w = choose|w: int|
            0 <= w < workers.len() && (#[trigger] workers[w]).phase is AtStart && workers[w].ran
                == rounds && !(pool.dispatcher is Idle);
        assert(pool.start_open(rounds + 1));
        assert(pool.worker_can_go_on(w));
    } else {
        match pool.dispatcher {
            Dispatcher::Idle { .. } => {},
            Dispatcher::AtStart { .. } => {
                assert(pool.start_open(rounds + 1));
            },
            Dispatcher::AtDone { .. } => {
                assert(pool.done_open(rounds + 1));
            },
            Dispatcher::Stopping { .. } => {
                assert(pool.start_open(rounds + 1));
            },
            Dispatcher::Stopped { .. } => {},
        }
    }
}

} // verus!
