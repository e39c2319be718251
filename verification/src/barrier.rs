//! A barrier on which threads wait without entering the kernel.
//!
//! Each of the participants arrives and then waits until all have arrived. The
//! last one to arrive resets the count and publishes a new generation, which
//! the others are watching for. The barrier can be used again and again.
//!
//! What a thread finds in the shared counters depends on the other threads.
//! [`on_arrival`] and [`is_released`] say what follows for every value, and
//! [`BarrierModel`] puts the steps of all threads together: whatever the order
//! of their steps, no thread passes before all have arrived, and some thread
//! can always go on.
//!
//! Proofs do not see what an atomic holds, but they see the calls on it: the
//! counters are created with 0, an arrival counts itself with one `fetch_add` of
//! 1 and goes by what that returned, and the last one stores 0 in the count and
//! the next generation. In which order [`SpinBarrier::arrive`] makes these calls,
//! and that it makes no others, is for its reader to see. The model takes one step at a time, and says nothing
//! of memory orderings.

use vstd::prelude::*;
use std::sync::atomic::{AtomicUsize, Ordering};

verus! {

/// Number of times that a waiting thread spins before it may do anything else.
pub const SPIN_LIMIT: u32 = 64;

/// What a thread does once it has arrived.
#[derive(Debug, PartialEq, Eq, Structural)]
pub enum Arrival {
    /// It is the last one: it resets the count and publishes the generation.
    Last { next_generation: usize },
    /// It waits until the generation is another one.
    Wait { generation: usize },
}

/// What a waiting thread does before it looks again.
#[derive(Debug, PartialEq, Eq, Structural)]
pub enum Pause {
    /// Spin in userspace.
    Spin,
    /// Wait for an interrupt, where the machine can. This yields to a sibling
    /// thread on the same core.
    WaitForInterrupt,
}

/// The generation after the given one.
pub open spec fn next_generation(generation: usize) -> usize {
    if generation == usize::MAX {
        0
    } else {
        (generation + 1) as usize
    }
}

/// What a thread does that found `generation` and then `arrived` threads
/// before it.
pub open spec fn arrival_of(arrived: usize, generation: usize, total: int) -> Arrival {
    if arrived == total - 1 {
        Arrival::Last { next_generation: next_generation(generation) }
    } else {
        Arrival::Wait { generation }
    }
}

/// Whether a thread that waits in `generation` may go on when it sees the
/// generation `seen`.
pub open spec fn has_moved_on(seen: usize, generation: usize) -> bool {
    seen != generation
}

/// Decides what a thread does that found `generation` and then `arrived`
/// threads before it, out of `total`.
pub fn on_arrival(arrived: usize, generation: usize, total: usize) -> (arrival: Arrival)
    requires
        total > 0,
    ensures
        arrival == arrival_of(arrived, generation, total as int),
{
    if arrived == total - 1 {
        Arrival::Last { next_generation: generation.wrapping_add(1) }
    } else {
        Arrival::Wait { generation }
    }
}

/// Decides whether a thread that waits in `generation` may go on when it sees
/// the generation `seen`.
pub fn is_released(seen: usize, generation: usize) -> (released: bool)
    ensures
        released == has_moved_on(seen, generation),
{
    seen != generation
}

/// Decides what a waiting thread does that has spun `spins` times, and counts
/// its spins on.
pub fn pause_after(spins: u32, use_wfi: bool) -> (pause: (Pause, u32))
    ensures
        pause.0 == if spins >= SPIN_LIMIT && use_wfi {
            Pause::WaitForInterrupt
        } else {
            Pause::Spin
        },
        pause.1 == if spins < SPIN_LIMIT {
            spins + 1
        } else {
            spins as int
        },
{
    if spins < SPIN_LIMIT {
        (Pause::Spin, spins + 1)
    } else if use_wfi {
        (Pause::WaitForInterrupt, spins)
    } else {
        (Pause::Spin, spins)
    }
}

/// The shared counters of a barrier.
pub struct SpinBarrier {
    count: AtomicUsize,
    generation: AtomicUsize,
    total: usize,
    use_wfi: bool,
}

impl SpinBarrier {
    /// Number of threads that the barrier waits for: those of a pool and the
    /// dispatcher.
    pub closed spec fn participants(&self) -> int {
        self.total as int
    }

    /// Whether there are more pool threads than physical cores, so that a
    /// waiting thread should make room for a sibling.
    pub closed spec fn oversubscribed(&self) -> bool {
        self.use_wfi
    }

    /// The number of threads that have arrived in the current round.
    pub closed spec fn count(&self) -> AtomicUsize {
        self.count
    }

    /// The current generation.
    pub closed spec fn generation(&self) -> AtomicUsize {
        self.generation
    }

    /// Whether both counters were created with 0.
    pub open spec fn starts_at_zero(&self) -> bool {
        call_ensures(AtomicUsize::new, (0,), self.count()) && call_ensures(
            AtomicUsize::new,
            (0,),
            self.generation(),
        )
    }

    /// Whether `arrived` is what counting one more arrival returned: the value
    /// that the count held before.
    pub open spec fn count_gives(&self, arrived: usize) -> bool {
        call_ensures(AtomicUsize::fetch_add, (&self.count(), 1, Ordering::AcqRel), arrived)
    }

    /// Whether `generation` is what an arriving thread read.
    pub open spec fn generation_gives(&self, generation: usize) -> bool {
        call_ensures(AtomicUsize::load, (&self.generation(), Ordering::Relaxed), generation)
    }

    /// Whether `generation` is what a waiting thread read.
    pub open spec fn waiting_thread_sees(&self, generation: usize) -> bool {
        call_ensures(AtomicUsize::load, (&self.generation(), Ordering::Acquire), generation)
    }

    /// Whether the count was reset, and `generation` was published.
    pub open spec fn released_into(&self, generation: usize) -> bool {
        &&& call_ensures(AtomicUsize::store, (&self.count(), 0, Ordering::Relaxed), ())
        &&& call_ensures(
            AtomicUsize::store,
            (&self.generation(), generation, Ordering::Release),
            (),
        )
    }

    /// Creates a barrier for `total` threads on a machine with the given
    /// number of physical cores, which run several threads each or do not.
    ///
    /// `total` counts the threads of a pool and the dispatcher. The dispatcher
    /// is not a pool thread: 88 pool threads on 88 cores, which make a `total`
    /// of 89, are not oversubscribed.
    pub fn new(total: usize, topology: (usize, bool)) -> (barrier: Self)
        ensures
            barrier.participants() == total,
            barrier.oversubscribed() == (topology.1 && total > topology.0 + 1),
            barrier.starts_at_zero(),
    {
        let (physical_cores, has_smt): (usize, bool) = topology;
        SpinBarrier {
            count: AtomicUsize::new(0),
            generation: AtomicUsize::new(0),
            total,
            use_wfi: has_smt && total > physical_cores && total - 1 > physical_cores,
        }
    }

    /// Whether a waiting thread should make room for a sibling.
    pub fn use_wfi(&self) -> (use_wfi: bool)
        ensures
            use_wfi == self.oversubscribed(),
    {
        self.use_wfi
    }

    /// Arrives at the barrier. The last thread to arrive releases the others.
    ///
    /// A thread is the last one exactly where all the others were counted before
    /// it. Which values it finds in the counters is up to the other threads.
    pub fn arrive(&self) -> (arrival: Arrival)
        requires
            self.participants() > 0,
        ensures
            exists|arrived: usize, generation: usize|
                #![trigger self.count_gives(arrived), self.generation_gives(generation)]
                {
                    &&& self.count_gives(arrived)
                    &&& self.generation_gives(generation)
                    &&& arrival == arrival_of(arrived, generation, self.participants())
                    &&& arrival is Last <==> arrived + 1 == self.participants()
                },
            arrival matches Arrival::Last { next_generation } ==> self.released_into(
                next_generation,
            ),
    {
        let generation: usize = self.generation.load(Ordering::Relaxed);
        let arrived: usize = self.count.fetch_add(1, Ordering::AcqRel);
        assert(self.count_gives(arrived) && self.generation_gives(generation));
        let arrival = on_arrival(arrived, generation, self.total);
        if let Arrival::Last { next_generation } = arrival {
            self.count.store(0, Ordering::Relaxed);
            self.generation.store(next_generation, Ordering::Release);
        }
        arrival
    }

    /// Looks whether a thread that waits in `generation` may go on. Which
    /// generation it sees is up to the other threads.
    pub fn released(&self, generation: usize) -> (released: bool)
        ensures
            exists|seen: usize|
                #![trigger self.waiting_thread_sees(seen)]
                self.waiting_thread_sees(seen) && released == has_moved_on(seen, generation),
    {
        let seen: usize = self.generation.load(Ordering::Acquire);
        assert(self.waiting_thread_sees(seen));
        is_released(seen, generation)
    }
}

/// Where a participant stands. `passed` counts the rounds in which it has
/// passed the barrier.
pub enum Participant {
    /// Not at the barrier.
    Outside { passed: nat },
    /// Has read the generation.
    Arriving { passed: nat, generation: usize },
    /// Has been counted, and waits.
    Waiting { passed: nat, generation: usize },
    /// Has been counted last, and is about to reset the count.
    Resetting { passed: nat, generation: usize },
    /// Has reset the count, and is about to publish the next generation.
    Publishing { passed: nat, generation: usize },
}

impl Participant {
    /// Number of rounds in which the participant has passed the barrier.
    pub open spec fn passed(self) -> nat {
        match self {
            Participant::Outside { passed } => passed,
            Participant::Arriving { passed, .. } => passed,
            Participant::Waiting { passed, .. } => passed,
            Participant::Resetting { passed, .. } => passed,
            Participant::Publishing { passed, .. } => passed,
        }
    }

    /// Number of rounds in which the participant has been counted.
    pub open spec fn arrived(self) -> nat {
        match self {
            Participant::Outside { passed } => passed,
            Participant::Arriving { passed, .. } => passed,
            Participant::Waiting { passed, .. } => passed + 1,
            Participant::Resetting { passed, .. } => passed + 1,
            Participant::Publishing { passed, .. } => passed + 1,
        }
    }

    /// Whether the participant is the one that releases the others.
    pub open spec fn releases(self) -> bool {
        self is Resetting || self is Publishing
    }
}

/// The counters of a barrier together with where each of its participants
/// stands.
pub struct BarrierModel {
    pub count: usize,
    pub generation: usize,
    pub participants: Seq<Participant>,
}

impl BarrierModel {
    /// A barrier that nobody has used.
    pub open spec fn is_new(self) -> bool {
        &&& 0 < self.participants.len() <= usize::MAX
        &&& self.count == 0
        &&& self.generation == 0
        &&& forall|t: int|
            0 <= t < self.participants.len() ==> (#[trigger] self.participants[t])
                == (Participant::Outside { passed: 0 })
    }

    /// Participant `t` takes one step, each of which reads or writes one of the
    /// counters once.
    pub open spec fn step(self, next: BarrierModel, t: int) -> bool {
        let total = self.participants.len() as int;
        &&& 0 <= t < total
        &&& match self.participants[t] {
            Participant::Outside { passed } => {
                &&& next.count == self.count
                &&& next.generation == self.generation
                &&& next.participants == self.participants.update(
                    t,
                    Participant::Arriving { passed, generation: self.generation },
                )
            },
            Participant::Arriving { passed, generation } => {
                &&& next.count as int == self.count + 1
                &&& next.generation == self.generation
                &&& next.participants == self.participants.update(
                    t,
                    match arrival_of(self.count, generation, total) {
                        Arrival::Last { .. } => Participant::Resetting { passed, generation },
                        Arrival::Wait { generation } => Participant::Waiting { passed, generation },
                    },
                )
            },
            Participant::Waiting { passed, generation } => {
                &&& next.count == self.count
                &&& next.generation == self.generation
                &&& next.participants == if has_moved_on(self.generation, generation) {
                    self.participants.update(t, Participant::Outside { passed: passed + 1 })
                } else {
                    self.participants
                }
            },
            Participant::Resetting { passed, generation } => {
                &&& next.count == 0
                &&& next.generation == self.generation
                &&& next.participants == self.participants.update(
                    t,
                    Participant::Publishing { passed, generation },
                )
            },
            Participant::Publishing { passed, generation } => {
                &&& next.count == self.count
                &&& next.generation == next_generation(generation)
                &&& next.participants == self.participants.update(
                    t,
                    Participant::Outside { passed: passed + 1 },
                )
            },
        }
    }

    /// The barrier has been passed in `rounds` rounds: every participant stands
    /// in the current round, or has not yet seen that the last one is over. The
    /// count is the number of participants that wait in the current round.
    pub open spec fn in_round(self, rounds: nat) -> bool {
        let total = self.participants.len() as int;
        &&& 0 < total <= usize::MAX
        &&& self.generation == generation_in(rounds)
        &&& forall|t: int| 0 <= t < total ==> stands_in(#[trigger] self.participants[t], rounds)
        &&& if exists|t: int| 0 <= t < total && (#[trigger] self.participants[t]).releases() {
            exists|t: int|
                {
                    &&& 0 <= t < total
                    &&& (#[trigger] self.participants[t]).releases()
                    &&& self.count == if self.participants[t] is Resetting {
                        total
                    } else {
                        0
                    }
                    &&& forall|u: int|
                        0 <= u < total && u != t ==> waits_in(#[trigger] self.participants[u], rounds)
                }
        } else {
            self.count == waiting(self.participants, rounds) && self.count < total
        }
    }
}

/// The generation in the given round.
pub open spec fn generation_in(rounds: nat) -> usize
    decreases rounds,
{
    if rounds == 0 {
        0
    } else {
        next_generation(generation_in((rounds - 1) as nat))
    }
}

/// Whether a participant waits in the given round.
pub open spec fn waits_in(participant: Participant, rounds: nat) -> bool {
    participant == (Participant::Waiting { passed: rounds, generation: generation_in(rounds) })
}

/// Whether a participant stands in the given round, or waits in the one before,
/// which is over.
pub open spec fn stands_in(participant: Participant, rounds: nat) -> bool {
    match participant {
        Participant::Outside { passed } => passed == rounds,
        Participant::Arriving { passed, generation } => passed == rounds && generation
            == generation_in(rounds),
        Participant::Waiting { passed, generation } => waits_in(participant, rounds) || (passed + 1
            == rounds && generation == generation_in(passed)),
        Participant::Resetting { passed, generation } => passed == rounds && generation
            == generation_in(rounds),
        Participant::Publishing { passed, generation } => passed == rounds && generation
            == generation_in(rounds),
    }
}

/// Number of participants that wait in the given round.
pub open spec fn waiting(participants: Seq<Participant>, rounds: nat) -> int
    decreases participants.len(),
{
    if participants.len() == 0 {
        0
    } else {
        waiting(participants.drop_last(), rounds) + if waits_in(participants.last(), rounds) {
            1int
        } else {
            0
        }
    }
}

proof fn lemma_waiting_bounds(participants: Seq<Participant>, rounds: nat)
    ensures
        0 <= waiting(participants, rounds) <= participants.len(),
        waiting(participants, rounds) == participants.len() <==> (forall|t: int|
            0 <= t < participants.len() ==> waits_in(#[trigger] participants[t], rounds)),
        waiting(participants, rounds) == 0 <==> (forall|t: int|
            0 <= t < participants.len() ==> !waits_in(#[trigger] participants[t], rounds)),
    decreases participants.len(),
{
    if participants.len() > 0 {
        let rest = participants.drop_last();
        let last = participants.len() - 1;
        lemma_waiting_bounds(rest, rounds);
        assert(forall|t: int| 0 <= t < rest.len() ==> #[trigger] rest[t] == participants[t]);
        if forall|t: int| 0 <= t < rest.len() ==> waits_in(#[trigger] rest[t], rounds) {
            assert(forall|t: int|
                0 <= t < last ==> waits_in(#[trigger] participants[t], rounds)) by {
                assert(forall|t: int| 0 <= t < last ==> #[trigger] participants[t] == rest[t]);
            }
        } else {
            let t = choose|t: int| 0 <= t < rest.len() && !waits_in(#[trigger] rest[t], rounds);
            assert(!waits_in(participants[t], rounds));
        }
        if forall|t: int| 0 <= t < rest.len() ==> !waits_in(#[trigger] rest[t], rounds) {
            assert(forall|t: int|
                0 <= t < last ==> !waits_in(#[trigger] participants[t], rounds)) by {
                assert(forall|t: int| 0 <= t < last ==> #[trigger] participants[t] == rest[t]);
            }
        } else {
            let t = choose|t: int| 0 <= t < rest.len() && waits_in(#[trigger] rest[t], rounds);
            assert(waits_in(participants[t], rounds));
        }
        assert(participants[last] == participants.last());
    }
}

proof fn lemma_waiting_update(
    participants: Seq<Participant>,
    rounds: nat,
    t: int,
    participant: Participant,
)
    requires
        0 <= t < participants.len(),
    ensures
        waiting(participants.update(t, participant), rounds) == waiting(participants, rounds) - (
        if waits_in(participants[t], rounds) {
            1int
        } else {
            0
        }) + (if waits_in(participant, rounds) {
            1int
        } else {
            0
        }),
    decreases participants.len(),
{
    let rest = participants.drop_last();
    let updated = participants.update(t, participant);
    if t == participants.len() - 1 {
        assert(updated.drop_last() =~= rest);
    } else {
        assert(updated.drop_last() =~= rest.update(t, participant));
        lemma_waiting_update(rest, rounds, t, participant);
    }
}

/// Where all but one participant wait, that one does not.
proof fn lemma_all_others_wait(participants: Seq<Participant>, rounds: nat, t: int)
    requires
        0 <= t < participants.len(),
        !waits_in(participants[t], rounds),
        waiting(participants, rounds) == participants.len() - 1,
    ensures
        forall|u: int|
            0 <= u < participants.len() && u != t ==> waits_in(#[trigger] participants[u], rounds),
{
    let there = Participant::Waiting { passed: rounds, generation: generation_in(rounds) };
    let all = participants.update(t, there);
    lemma_waiting_update(participants, rounds, t, there);
    lemma_waiting_bounds(all, rounds);
    assert forall|u: int| 0 <= u < participants.len() && u != t implies waits_in(
        #[trigger] participants[u],
        rounds,
    ) by {
        assert(waits_in(all[u], rounds));
    }
}

/// A new barrier is in round 0.
pub proof fn law_new_barrier_is_in_round_zero(barrier: BarrierModel)
    requires
        barrier.is_new(),
    ensures
        barrier.in_round(0),
{
    lemma_waiting_bounds(barrier.participants, 0);
}

/// Every step of every participant keeps the barrier in its round, or ends the
/// round for all.
pub proof fn law_steps_keep_the_round(
    barrier: BarrierModel,
    next: BarrierModel,
    t: int,
    rounds: nat,
) -> (next_rounds: nat)
    requires
        barrier.in_round(rounds),
        barrier.step(next, t),
    ensures
        next.in_round(next_rounds),
        next_rounds == if barrier.participants[t] is Publishing {
            rounds + 1
        } else {
            rounds
        },
{
    let total = barrier.participants.len() as int;
    let before = barrier.participants;
    let after = next.participants;
    lemma_waiting_bounds(before, rounds);
    assert(stands_in(before[t], rounds));
    match before[t] {
        Participant::Outside { passed } => {
            lemma_waiting_update(before, rounds, t, after[t]);
            assert(!before[t].releases() && !waits_in(before[t], rounds));
            lemma_no_releaser_but_with_waiters(barrier, rounds, t);
            rounds
        },
        Participant::Arriving { passed, generation } => {
            lemma_waiting_update(before, rounds, t, after[t]);
            assert(!before[t].releases() && !waits_in(before[t], rounds));
            lemma_no_releaser_but_with_waiters(barrier, rounds, t);
            if barrier.count == total - 1 {
                lemma_all_others_wait(before, rounds, t);
                assert(after[t].releases());
                assert forall|u: int| 0 <= u < total && u != t implies waits_in(
                    #[trigger] after[u],
                    rounds,
                ) by {
                    assert(waits_in(before[u], rounds));
                }
            } else {
                assert forall|u: int| 0 <= u < total implies !(#[trigger] after[u]).releases() by {
                    assert(u == t || after[u] == before[u]);
                }
            }
            rounds
        },
        Participant::Waiting { passed, generation } => {
            if has_moved_on(barrier.generation, generation) {
                lemma_waiting_update(before, rounds, t, after[t]);
                assert(!waits_in(before[t], rounds));
                lemma_no_releaser_but_with_waiters(barrier, rounds, t);
                assert forall|u: int| 0 <= u < total implies !(#[trigger] after[u]).releases() by {
                    assert(u == t || after[u] == before[u]);
                }
            }
            rounds
        },
        Participant::Resetting { passed, generation } => {
            lemma_releaser_is_alone(barrier, rounds, t);
            assert(after[t].releases());
            assert forall|u: int| 0 <= u < total && u != t implies waits_in(
                #[trigger] after[u],
                rounds,
            ) by {
                assert(waits_in(before[u], rounds));
            }
            rounds
        },
        Participant::Publishing { passed, generation } => {
            lemma_releaser_is_alone(barrier, rounds, t);
            assert forall|u: int| 0 <= u < total implies stands_in(#[trigger] after[u], rounds + 1)
                && !after[u].releases() && !waits_in(after[u], rounds + 1) by {
                if u != t {
                    assert(after[u] == before[u]);
                    assert(waits_in(before[u], rounds));
                }
            }
            lemma_waiting_bounds(after, rounds + 1);
            rounds + 1
        },
    }
}

/// While a participant neither waits in the round nor releases the others, no
/// participant releases them.
proof fn lemma_no_releaser_but_with_waiters(barrier: BarrierModel, rounds: nat, t: int)
    requires
        barrier.in_round(rounds),
        0 <= t < barrier.participants.len(),
        !barrier.participants[t].releases(),
        !waits_in(barrier.participants[t], rounds),
    ensures
        forall|u: int|
            0 <= u < barrier.participants.len() ==> !(
            #[trigger] barrier.participants[u]).releases(),
        barrier.count == waiting(barrier.participants, rounds),
        barrier.count < barrier.participants.len(),
{
    let total = barrier.participants.len() as int;
    if exists|u: int| 0 <= u < total && (#[trigger] barrier.participants[u]).releases() {
        let u = choose|u: int|
            {
                &&& 0 <= u < total
                &&& (#[trigger] barrier.participants[u]).releases()
                &&& forall|v: int|
                    0 <= v < total && v != u ==> waits_in(
                        #[trigger] barrier.participants[v],
                        rounds,
                    )
            };
        assert(waits_in(barrier.participants[t], rounds));
    }
}

/// While a participant releases the others, all others wait.
proof fn lemma_releaser_is_alone(barrier: BarrierModel, rounds: nat, t: int)
    requires
        barrier.in_round(rounds),
        0 <= t < barrier.participants.len(),
        barrier.participants[t].releases(),
    ensures
        forall|u: int|
            0 <= u < barrier.participants.len() && u != t ==> waits_in(
                #[trigger] barrier.participants[u],
                rounds,
            ),
        barrier.count == if barrier.participants[t] is Resetting {
            barrier.participants.len()
        } else {
            0
        },
{
    let total = barrier.participants.len() as int;
    let u = choose|u: int|
        {
            &&& 0 <= u < total
            &&& (#[trigger] barrier.participants[u]).releases()
            &&& barrier.count == if barrier.participants[u] is Resetting {
                total
            } else {
                0
            }
            &&& forall|v: int|
                0 <= v < total && v != u ==> waits_in(#[trigger] barrier.participants[v], rounds)
        };
    if u != t {
        assert(waits_in(barrier.participants[t], rounds));
    }
}

/// No participant passes before all have arrived: however often participant `t`
/// has passed the barrier, every participant has arrived at least as often.
pub proof fn law_no_participant_passes_before_all_arrive(
    barrier: BarrierModel,
    rounds: nat,
    t: int,
    u: int,
)
    requires
        barrier.in_round(rounds),
        0 <= t < barrier.participants.len(),
        0 <= u < barrier.participants.len(),
    ensures
        barrier.participants[t].passed() <= barrier.participants[u].arrived(),
{
    assert(stands_in(barrier.participants[t], rounds));
    assert(stands_in(barrier.participants[u], rounds));
}

/// Whether the next step of participant `t` takes it on: it does not merely
/// look at the generation and go on waiting.
pub open spec fn can_go_on(barrier: BarrierModel, t: int) -> bool {
    0 <= t < barrier.participants.len() && match barrier.participants[t] {
        Participant::Waiting { generation, .. } => has_moved_on(barrier.generation, generation),
        _ => true,
    }
}

/// The barrier never gets stuck: some participant can always go on.
pub proof fn law_barrier_never_gets_stuck(barrier: BarrierModel, rounds: nat)
    requires
        barrier.in_round(rounds),
    ensures
        exists|t: int| #[trigger] can_go_on(barrier, t),
{
    let participants = barrier.participants;
    lemma_waiting_bounds(participants, rounds);
    if forall|t: int| 0 <= t < participants.len() ==> waits_in(#[trigger] participants[t], rounds) {
        assert(false);
    }
    let t = choose|t: int|
        0 <= t < participants.len() && !waits_in(#[trigger] participants[t], rounds);
    assert(stands_in(participants[t], rounds));
    if let Participant::Waiting { passed, generation } = participants[t] {
        assert(generation_in(rounds) == next_generation(generation_in(passed)));
    }
    assert(can_go_on(barrier, t));
}

/// The calls that a barrier is made of: an arrival counts itself by a `fetch_add`
/// of 1 on the count, and the last one stores 0 there.
pub proof fn law_arrivals_count_by_one(barrier: &SpinBarrier, arrived: usize, generation: usize)
    ensures
        barrier.count_gives(arrived) <==> call_ensures(
            AtomicUsize::fetch_add,
            (&barrier.count(), 1, Ordering::AcqRel),
            arrived,
        ),
        barrier.generation_gives(generation) <==> call_ensures(
            AtomicUsize::load,
            (&barrier.generation(), Ordering::Relaxed),
            generation,
        ),
        barrier.waiting_thread_sees(generation) <==> call_ensures(
            AtomicUsize::load,
            (&barrier.generation(), Ordering::Acquire),
            generation,
        ),
        barrier.released_into(generation) ==> call_ensures(
            AtomicUsize::store,
            (&barrier.count(), 0, Ordering::Relaxed),
            (),
        ) && call_ensures(
            AtomicUsize::store,
            (&barrier.generation(), generation, Ordering::Release),
            (),
        ),
{
}

/// Whether `arrivals` are what threads get that arrive one after the other,
/// before which the count stands at `counts` and the generation at
/// `generations`: an arrival that waits leaves the count one higher, and the last
/// one leaves it at 0 and publishes its generation.
pub open spec fn arrive_in_turn(
    arrivals: Seq<Arrival>,
    counts: Seq<usize>,
    generations: Seq<usize>,
    total: int,
) -> bool {
    &&& counts.len() == arrivals.len() && generations.len() == arrivals.len()
    &&& arrivals.len() > 0 ==> counts[0] == 0
    &&& forall|k: int|
        0 <= k < arrivals.len() ==> #[trigger] arrivals[k] == arrival_of(
            counts[k],
            generations[k],
            total,
        )
    &&& forall|k: int|
        0 < k < arrivals.len() ==> match #[trigger] arrivals[k - 1] {
            Arrival::Last { next_generation } => counts[k] == 0 && generations[k]
                == next_generation,
            Arrival::Wait { .. } => counts[k] == counts[k - 1] + 1 && generations[k]
                == generations[k - 1],
        }
}

/// Of the arrivals at a barrier of `total` threads, in the order in which they
/// are counted, every `total`-th one is the last of its round, and no other is.
/// Those of one round all find the same generation, and its last arrival
/// publishes the one after it, which wraps around past the largest `usize`.
pub proof fn law_every_round_ends_with_its_last_arrival(
    arrivals: Seq<Arrival>,
    counts: Seq<usize>,
    generations: Seq<usize>,
    total: int,
    k: int,
)
    requires
        0 < total <= usize::MAX,
        arrive_in_turn(arrivals, counts, generations, total),
        0 <= k < arrivals.len(),
    ensures
        counts[k] == k % total,
        arrivals[k] is Last <==> k % total == total - 1,
        arrivals[k] matches Arrival::Wait { generation } ==> generation == generations[k],
        arrivals[k] matches Arrival::Last { next_generation } ==> next_generation == (
        if generations[k] == usize::MAX {
            0
        } else {
            generations[k] + 1
        }),
        k % total > 0 ==> generations[k] == generations[k - 1],
    decreases k,
{
    if k > 0 {
        law_every_round_ends_with_its_last_arrival(arrivals, counts, generations, total, k - 1);
        assert(arrivals[k - 1] == arrival_of(counts[k - 1], generations[k - 1], total));
        lemma_next_remainder(k - 1, total);
    } else {
        vstd::arithmetic::div_mod::lemma_small_mod(0, total as nat);
    }
    assert(arrivals[k] == arrival_of(counts[k], generations[k], total));
}

proof fn lemma_next_remainder(k: int, n: int)
    requires
        0 <= k,
        0 < n,
    ensures
        (k + 1) % n == if k % n == n - 1 {
            0
        } else {
            k % n + 1
        },
{
    let q = k / n;
    let r = k % n;
    vstd::arithmetic::div_mod::lemma_fundamental_div_mod(k, n);
    if r == n - 1 {
        assert(k + 1 == (q + 1) * n + 0) by (nonlinear_arith)
            requires
                k == n * q + r,
                r == n - 1,
        ;
        vstd::arithmetic::div_mod::lemma_fundamental_div_mod_converse(k + 1, n, q + 1, 0);
    } else {
        assert(k + 1 == q * n + (r + 1)) by (nonlinear_arith)
            requires
                k == n * q + r,
        ;
        vstd::arithmetic::div_mod::lemma_fundamental_div_mod_converse(k + 1, n, q, r + 1);
    }
}

/// Between two rounds the barrier is as ready as when it was new: once every
/// participant has passed, the count is 0, and the generation has moved on once
/// for each round.
pub proof fn law_barrier_is_ready_between_rounds(barrier: BarrierModel, rounds: nat)
    requires
        barrier.in_round(rounds),
        forall|t: int|
            0 <= t < barrier.participants.len() ==> #[trigger] barrier.participants[t] is Outside,
    ensures
        barrier.count == 0,
        barrier.generation == generation_in(rounds),
        forall|t: int|
            0 <= t < barrier.participants.len() ==> (#[trigger] barrier.participants[t]).passed()
                == rounds,
{
    lemma_waiting_bounds(barrier.participants, rounds);
    assert forall|t: int| 0 <= t < barrier.participants.len() implies stands_in(
        #[trigger] barrier.participants[t],
        rounds,
    ) && !barrier.participants[t].releases() && !waits_in(barrier.participants[t], rounds) by {}
}

/// A single participant is always the last one to arrive, and never waits.
pub proof fn law_single_participant_never_waits(
    barrier: BarrierModel,
    next: BarrierModel,
    rounds: nat,
)
    requires
        barrier.in_round(rounds),
        barrier.participants.len() == 1,
        barrier.participants[0] is Arriving,
        barrier.step(next, 0),
    ensures
        next.participants[0] is Resetting,
{
    lemma_waiting_bounds(barrier.participants, rounds);
}

/// A participant of a round that is over can go on.
pub proof fn law_released_participants_can_go_on(barrier: BarrierModel, rounds: nat, t: int)
    requires
        barrier.in_round(rounds),
        0 <= t < barrier.participants.len(),
        barrier.participants[t].arrived() <= rounds,
    ensures
        can_go_on(barrier, t),
{
    assert(stands_in(barrier.participants[t], rounds));
    if let Participant::Waiting { passed, generation } = barrier.participants[t] {
        assert(generation_in(rounds) == next_generation(generation_in(passed)));
    }
}

} // verus!
