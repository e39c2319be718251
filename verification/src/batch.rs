//! Lock-free batch work distribution with dynamic window sizing.
//!
//! An atomic counter hands out small windows of item indices to worker
//! threads. [`TakeVec`] holds the inputs, each of which is taken once, and
//! [`ResultVec`] holds one slot for each result.
//!
//! Window sizing: the window size aims at `WINDOWS_PER_THREAD` windows for each
//! thread and is capped at `MAX_WINDOW_SIZE`, which limits the cost of each
//! claim. For example, 100 items on 16 threads give windows of 2 items (50
//! windows), and 10000 items on 16 threads give windows of 8 items.

use vstd::prelude::*;
use std::sync::atomic::{AtomicUsize, Ordering};
use crate::arith;

verus! {

/// Number of windows that the window size aims at for each thread.
pub const WINDOWS_PER_THREAD: usize = 4;

/// Maximum window size (items per claim). Larger values reduce contention on
/// the counter but worsen the tail latency of uneven last windows.
pub const MAX_WINDOW_SIZE: usize = 8;

/// Number of windows aimed at for `num_threads` threads: at least one, and no
/// more than a `usize` holds.
pub open spec fn target_windows(num_threads: int) -> int {
    let wanted = num_threads * WINDOWS_PER_THREAD;
    if wanted > usize::MAX {
        usize::MAX as int
    } else if wanted < 1 {
        1
    } else {
        wanted
    }
}

/// Number of items in each window when `total` items are distributed over
/// `num_threads` threads.
pub open spec fn window_len_for(total: int, num_threads: int) -> int {
    let even = arith::ceil_div(total, target_windows(num_threads));
    if even < 1 {
        1
    } else if even > MAX_WINDOW_SIZE {
        MAX_WINDOW_SIZE as int
    } else {
        even
    }
}

/// The half-open window that starts at `start`, or `None` when `start` is past
/// the last item.
pub open spec fn window_from(total: int, window: int, start: int) -> Option<(usize, usize)> {
    if start >= total {
        None
    } else if start + window < total {
        Some((start as usize, (start + window) as usize))
    } else {
        Some((start as usize, total as usize))
    }
}

/// The window that the claim number `k` gets, counted from 0. Each claim moves
/// the counter on by one window, so this claim finds it at `k * window`.
pub open spec fn nth_window(total: int, window: int, k: int) -> Option<(usize, usize)> {
    window_from(total, window, k * window)
}

/// Whether item `i` belongs to the given window.
pub open spec fn in_window(claimed: Option<(usize, usize)>, i: int) -> bool {
    claimed matches Some((start, end)) && start <= i < end
}

/// Computes the window size for `total` items on `num_threads` threads.
pub fn window_size_for(total: usize, num_threads: usize) -> (window_size: usize)
    requires
        total + target_windows(num_threads as int) <= usize::MAX,
    ensures
        window_size == window_len_for(total as int, num_threads as int),
        1 <= window_size <= MAX_WINDOW_SIZE,
{
    let target: usize = match num_threads.checked_mul(WINDOWS_PER_THREAD) {
        Some(wanted) => if wanted < 1 { 1 } else { wanted },
        None => usize::MAX,
    };
    let even: usize = (total + target - 1) / target;
    if even < 1 {
        1
    } else if even > MAX_WINDOW_SIZE {
        MAX_WINDOW_SIZE
    } else {
        even
    }
}

/// Computes the window that starts at `start`.
fn window_starting_at(total: usize, window_size: usize, start: usize) -> (window: Option<
    (usize, usize),
>)
    ensures
        window == window_from(total as int, window_size as int, start as int),
{
    if start >= total {
        return None;
    }
    if window_size < total - start {
        Some((start, start + window_size))
    } else {
        Some((start, total))
    }
}

/// Lock-free work distributor.
///
/// Workers atomically claim non-overlapping windows of item indices. The
/// window size is chosen from the number of items and of threads, so that
/// every thread gets several windows of work.
///
/// What the shared counter holds when a claim reaches it depends on the other
/// threads. [`BatchWorkQueue::window_at`] says which window a claim gets for
/// every value of the counter, and [`WindowCursor`] hands out the same windows
/// to a single owner.
///
/// Proofs do not see what an atomic holds, but they see the calls on it: the
/// counter is created with 0, and the window of a claim is the one at the value
/// that a `fetch_add` of the window size on this counter returned. That
/// successive calls return the values of [`are_successive_claims`] is what
/// `fetch_add` does. That a claim makes no more than one of them is for the
/// reader of [`BatchWorkQueue::claim_window`] to see.
pub struct BatchWorkQueue {
    next: AtomicUsize,
    total: usize,
    window_size: usize,
}

impl BatchWorkQueue {
    /// Number of items that the queue distributes.
    pub closed spec fn total_items(&self) -> int {
        self.total as int
    }

    /// Number of items in each window but the last.
    pub closed spec fn window_len(&self) -> int {
        self.window_size as int
    }

    /// The shared counter.
    pub closed spec fn counter(&self) -> AtomicUsize {
        self.next
    }

    /// Whether the counter was created with the value `start`.
    pub open spec fn counter_starts_at(&self, start: usize) -> bool {
        call_ensures(AtomicUsize::new, (start,), self.counter())
    }

    /// Whether `start` is what a step of the counter by one window returned: the
    /// value that the counter held before the step.
    pub open spec fn counter_gives(&self, start: usize) -> bool {
        exists|step: usize|
            step == self.window_len() && #[trigger] call_ensures(
                AtomicUsize::fetch_add,
                (&self.counter(), step, Ordering::Relaxed),
                start,
            )
    }

    /// Creates a queue distributing `total` items across `num_threads`.
    ///
    /// The window size aims at `WINDOWS_PER_THREAD` windows for each thread and
    /// is capped at `MAX_WINDOW_SIZE`.
    pub fn new(total: usize, num_threads: usize) -> (queue: Self)
        requires
            total + target_windows(num_threads as int) <= usize::MAX,
        ensures
            queue.total_items() == total,
            queue.window_len() == window_len_for(total as int, num_threads as int),
            1 <= queue.window_len() <= MAX_WINDOW_SIZE,
            queue.counter_starts_at(0),
    {
        let window_size: usize = window_size_for(total, num_threads);
        BatchWorkQueue { next: AtomicUsize::new(0), total, window_size }
    }

    /// The window of a claim that finds the counter at `start`.
    pub fn window_at(&self, start: usize) -> (claimed: Option<(usize, usize)>)
        ensures
            claimed == window_from(self.total_items(), self.window_len(), start as int),
    {
        window_starting_at(self.total, self.window_size, start)
    }

    /// Claims the next window of work items.
    ///
    /// Returns the half-open range `Some((start, end))`, or `None` when all
    /// items have been claimed. The counter moves on by one window in one
    /// atomic step, and the window starts where it stood before. Where that was
    /// is up to the claims of all threads so far.
    pub fn claim_window(&self) -> (claimed: Option<(usize, usize)>)
        ensures
            exists|start: usize|
                #![trigger self.counter_gives(start)]
                self.counter_gives(start) && claimed == window_from(
                    self.total_items(),
                    self.window_len(),
                    start as int,
                ),
    {
        let start: usize = self.advance();
        self.window_at(start)
    }

    /// Moves the shared counter on by one window and returns where it stood,
    /// which depends on the claims of the other threads.
    fn advance(&self) -> (start: usize)
        ensures
            self.counter_gives(start),
    {
        self.next.fetch_add(self.window_size, Ordering::Relaxed)
    }
}

/// Distributor of the same windows for a single owner.
pub struct WindowCursor {
    next: usize,
    total: usize,
    window_size: usize,
}

impl WindowCursor {
    /// Number of items that the cursor distributes.
    pub closed spec fn total_items(&self) -> int {
        self.total as int
    }

    /// Number of items in each window but the last.
    pub closed spec fn window_len(&self) -> int {
        self.window_size as int
    }

    /// First item that has not been claimed.
    pub closed spec fn position(&self) -> int {
        self.next as int
    }

    /// Creates a cursor over `total` items with the window size for
    /// `num_threads`.
    pub fn new(total: usize, num_threads: usize) -> (cursor: Self)
        requires
            total + target_windows(num_threads as int) <= usize::MAX,
        ensures
            cursor.total_items() == total,
            cursor.window_len() == window_len_for(total as int, num_threads as int),
            1 <= cursor.window_len() <= MAX_WINDOW_SIZE,
            cursor.position() == 0,
    {
        let window_size: usize = window_size_for(total, num_threads);
        WindowCursor { next: 0, total, window_size }
    }

    /// Claims the next window, or `None` when all items have been claimed.
    pub fn claim_window(&mut self) -> (claimed: Option<(usize, usize)>)
        ensures
            claimed == window_from(
                old(self).total_items(),
                old(self).window_len(),
                old(self).position(),
            ),
            final(self).total_items() == old(self).total_items(),
            final(self).window_len() == old(self).window_len(),
            final(self).position() == match claimed {
                Some((_, end)) => end as int,
                None => old(self).position(),
            },
    {
        let claimed = window_starting_at(self.total, self.window_size, self.next);
        if let Some((_, end)) = claimed {
            self.next = end;
        }
        claimed
    }
}

/// A `Vec` whose elements can each be taken once.
pub struct TakeVec<T>(Vec<Option<T>>);

impl<T> View for TakeVec<T> {
    type V = Seq<Option<T>>;

    closed spec fn view(&self) -> Seq<Option<T>> {
        self.0@
    }
}

impl<T> TakeVec<T> {
    /// Wraps a `Vec<T>` so that items can be taken by index.
    pub fn new(items: Vec<T>) -> (slots: Self)
        ensures
            slots@ == items@.map_values(|item: T| Some(item)),
    {
        let mut slots: Vec<Option<T>> = Vec::with_capacity(items.len());
        for item in iter: items
            invariant
                slots@ == iter.seq().take(iter.index()).map_values(|item: T| Some(item)),
        {
            slots.push(Some(item));
        }
        TakeVec(slots)
    }

    /// Whether there is an item at `index` that has not been taken.
    pub fn holds(&self, index: usize) -> (holds: bool)
        ensures
            holds == (index < self@.len() && self@[index as int] is Some),
    {
        index < self.0.len() && self.0[index].is_some()
    }

    /// Takes the item at `index`, leaving `None` in its place.
    ///
    /// The item must not have been taken before.
    pub fn take(&mut self, index: usize) -> (item: T)
        requires
            index < old(self)@.len(),
            old(self)@[index as int] is Some,
        ensures
            Some(item) == old(self)@[index as int],
            final(self)@ == old(self)@.update(index as int, None),
    {
        let taken: Option<T> = self.0[index].take();
        taken.unwrap()
    }
}

/// One slot for each result, written in any order.
pub struct ResultVec<T>(Vec<Option<T>>);

impl<T> View for ResultVec<T> {
    type V = Seq<Option<T>>;

    closed spec fn view(&self) -> Seq<Option<T>> {
        self.0@
    }
}

impl<T> ResultVec<T> {
    /// Allocates `len` empty result slots.
    pub fn new(len: usize) -> (slots: Self)
        ensures
            slots@ == Seq::new(len as nat, |i: int| None::<T>),
    {
        let mut slots: Vec<Option<T>> = Vec::with_capacity(len);
        let mut written: usize = 0;
        while written < len
            invariant
                written <= len,
                slots@ == Seq::new(written as nat, |i: int| None::<T>),
            decreases len - written,
        {
            slots.push(None);
            written = written + 1;
        }
        ResultVec(slots)
    }

    /// Number of slots.
    pub fn len(&self) -> (len: usize)
        ensures
            len == self@.len(),
    {
        self.0.len()
    }

    /// Whether every slot has been written.
    pub fn is_complete(&self) -> (complete: bool)
        ensures
            complete == (forall|i: int| 0 <= i < self@.len() ==> self@[i] is Some),
    {
        let mut i: usize = 0;
        while i < self.0.len()
            invariant
                i <= self@.len(),
                forall|j: int| 0 <= j < i ==> self@[j] is Some,
            decreases self@.len() - i,
        {
            if self.0[i].is_none() {
                assert(self@[i as int] is None);
                return false;
            }
            i = i + 1;
        }
        true
    }

    /// Writes a result to the slot at `index`.
    pub fn set(&mut self, index: usize, value: T)
        requires
            index < old(self)@.len(),
        ensures
            final(self)@ == old(self)@.update(index as int, Some(value)),
    {
        self.0[index] = Some(value);
    }

    /// Returns the results in order. Every slot must have been written.
    pub fn into_vec(self) -> (results: Vec<T>)
        requires
            forall|i: int| 0 <= i < self@.len() ==> self@[i] is Some,
        ensures
            results@ == self@.map_values(|slot: Option<T>| slot->0),
    {
        let ghost slots = self@;
        let mut results: Vec<T> = Vec::with_capacity(self.0.len());
        for slot in iter: self.0
            invariant
                iter.seq() == slots,
                forall|i: int| 0 <= i < slots.len() ==> slots[i] is Some,
                results@ == slots.take(iter.index()).map_values(|slot: Option<T>| slot->0),
        {
            results.push(slot.unwrap());
        }
        results
    }
}

/// Number of windows that cover `total` items.
pub open spec fn window_count(total: int, window: int) -> int {
    arith::ceil_div(total, window)
}

/// Whether `starts` are the values that successive claims find in the counter:
/// it starts at 0, and each claim moves it on by one window and wraps around
/// past the largest `usize`.
pub open spec fn are_successive_claims(starts: Seq<usize>, window: int) -> bool {
    &&& starts.len() > 0 ==> starts[0] == 0
    &&& forall|k: int|
        0 < k < starts.len() ==> #[trigger] starts[k] == (if starts[k - 1] + window > usize::MAX {
            starts[k - 1] + window - usize::MAX - 1
        } else {
            starts[k - 1] + window
        })
}

/// Whichever threads make them, the claim number `k` gets window number `k`, as
/// long as the counter has not wrapped around.
pub proof fn law_successive_claims_get_successive_windows(
    total: usize,
    window: int,
    starts: Seq<usize>,
    k: int,
)
    requires
        1 <= window <= MAX_WINDOW_SIZE,
        are_successive_claims(starts, window),
        0 <= k < starts.len(),
        k * window <= usize::MAX,
    ensures
        starts[k] == k * window,
        window_from(total as int, window, starts[k] as int) == nth_window(
            total as int,
            window,
            k,
        ),
    decreases k,
{
    if k > 0 {
        assert(k * window == (k - 1) * window + window) by (nonlinear_arith);
        law_successive_claims_get_successive_windows(total, window, starts, k - 1);
    }
}

/// A value is one that the counter gives exactly where `fetch_add`, called on the
/// counter with the window size, returned it.
pub proof fn law_counter_moves_on_by_the_window(queue: &BatchWorkQueue, step: usize, start: usize)
    requires
        step == queue.window_len(),
    ensures
        queue.counter_gives(start) <==> call_ensures(
            AtomicUsize::fetch_add,
            (&queue.counter(), step, Ordering::Relaxed),
            start,
        ),
{
}

/// What the claims on one queue return, whichever threads make them. The claims
/// are taken in the order in which they reach the counter, `starts` are the
/// values that they find there, and `claimed` is what they return. As long as the
/// counter has not wrapped around, claim number `k` returns the items from
/// `k * window` on, `window` of them or what is left, and `None` where nothing
/// is left. No two claims return the same item.
pub proof fn law_claims_return_successive_windows(
    total: usize,
    window: int,
    starts: Seq<usize>,
    claimed: Seq<Option<(usize, usize)>>,
    k: int,
    m: int,
)
    requires
        1 <= window <= MAX_WINDOW_SIZE,
        are_successive_claims(starts, window),
        claimed.len() == starts.len(),
        forall|n: int|
            0 <= n < claimed.len() ==> #[trigger] claimed[n] == window_from(
                total as int,
                window,
                starts[n] as int,
            ),
        0 <= k <= m < claimed.len(),
        m * window <= usize::MAX,
    ensures
        claimed[k] is Some <==> k * window < total,
        claimed[k] matches Some((start, end)) ==> {
            &&& start == k * window
            &&& start < end <= total
            &&& end == (k + 1) * window || (end == total && end < (k + 1) * window)
        },
        claimed[k] is None ==> claimed[m] is None,
        k < m ==> ((claimed[k], claimed[m]) matches (Some((_, end)), Some((start, _))) ==> end
            <= start),
{
    assert(k * window <= m * window) by (nonlinear_arith)
        requires
            k <= m,
            1 <= window,
    ;
    if k < m {
        assert((k + 1) * window <= m * window) by (nonlinear_arith)
            requires
                k + 1 <= m,
                1 <= window,
        ;
    }
    assert((k + 1) * window == k * window + window) by (nonlinear_arith);
    assert(0 <= k * window) by (nonlinear_arith)
        requires
            0 <= k,
            1 <= window,
    ;
    law_successive_claims_get_successive_windows(total, window, starts, k);
    law_successive_claims_get_successive_windows(total, window, starts, m);
}

/// Successive claims split the items: item `i` belongs to the window of claim
/// number `i / window` and to no other. No two claims share an item, and no
/// item is left out.
pub proof fn law_each_item_in_exactly_one_window(total: usize, window: int, i: int, k: int)
    requires
        1 <= window <= MAX_WINDOW_SIZE,
        0 <= i < total,
        0 <= k,
    ensures
        in_window(nth_window(total as int, window, k), i) <==> k == i / window,
{
    vstd::arithmetic::div_mod::lemma_fundamental_div_mod(i, window);
    let q = i / window;
    assert(q * window <= i < q * window + window) by (nonlinear_arith)
        requires
            i == window * q + i % window,
            0 <= i % window < window,
    ;
    if k < q {
        assert(k * window + window <= q * window) by (nonlinear_arith)
            requires
                k + 1 <= q,
                window >= 1,
        ;
    } else if k > q {
        assert(q * window + window <= k * window) by (nonlinear_arith)
            requires
                q + 1 <= k,
                window >= 1,
        ;
    }
}

/// Claims hand out every item once. Where the claims of all threads, taken in
/// the order in which they reach the counter, are at least `window_count`, and
/// the counter has not wrapped around, item `i` is in the window of one of them
/// and of no other. (With fewer claims, or a counter that has wrapped around,
/// an item may be left out or handed out twice.)
pub proof fn law_claims_hand_out_every_item_once(
    total: usize,
    window: int,
    starts: Seq<usize>,
    i: int,
)
    requires
        1 <= window <= MAX_WINDOW_SIZE,
        are_successive_claims(starts, window),
        window_count(total as int, window) <= starts.len(),
        (starts.len() - 1) * window <= usize::MAX,
        0 <= i < total,
    ensures
        0 <= i / window < starts.len(),
        forall|k: int|
            0 <= k < starts.len() ==> (in_window(
                window_from(total as int, window, #[trigger] starts[k] as int),
                i,
            ) <==> k == i / window),
{
    let own = i / window;
    vstd::arithmetic::div_mod::lemma_div_pos_is_pos(i, window);
    law_each_item_in_exactly_one_window(total, window, i, own);
    law_claims_end_after_window_count(total, window, own);
    assert forall|k: int| 0 <= k < starts.len() implies (in_window(
        window_from(total as int, window, #[trigger] starts[k] as int),
        i,
    ) <==> k == own) by {
        assert(k * window <= (starts.len() - 1) * window) by (nonlinear_arith)
            requires
                k <= starts.len() - 1,
                1 <= window,
        ;
        law_successive_claims_get_successive_windows(total, window, starts, k);
        law_each_item_in_exactly_one_window(total, window, i, k);
    }
}

/// The first `window_count` claims get a window, which holds at least one and
/// at most `window` items. Every later claim gets `None`.
pub proof fn law_claims_end_after_window_count(total: usize, window: int, k: int)
    requires
        1 <= window <= MAX_WINDOW_SIZE,
        0 <= k,
    ensures
        nth_window(total as int, window, k) is Some <==> k < window_count(total as int, window),
        nth_window(total as int, window, k) matches Some((start, end)) ==> start < end
            && end - start <= window && end <= total,
{
    let sum = total + window - 1;
    let count = sum / window;
    vstd::arithmetic::div_mod::lemma_fundamental_div_mod(sum, window);
    assert(count * window <= sum < count * window + window) by (nonlinear_arith)
        requires
            sum == window * count + sum % window,
            0 <= sum % window < window,
    ;
    assert(0 <= k * window) by (nonlinear_arith)
        requires
            0 <= k,
            1 <= window,
    ;
    if k < count {
        assert(k * window + window <= count * window) by (nonlinear_arith)
            requires
                k + 1 <= count,
                window >= 1,
        ;
    } else {
        assert(count * window <= k * window) by (nonlinear_arith)
            requires
                count <= k,
                window >= 1,
        ;
    }
}

/// A cursor hands out the windows of the successive claims: where it stands at
/// the start of window `k`, or past the last item, it claims window `k`, and
/// then stands at the start of window `k + 1`, or past the last item.
pub proof fn law_cursor_follows_claims(total: usize, window: int, position: int, k: int)
    requires
        1 <= window <= MAX_WINDOW_SIZE,
        0 <= k,
        position == if k * window < total { k * window } else { total as int },
    ensures
        window_from(total as int, window, position) == nth_window(total as int, window, k),
        match nth_window(total as int, window, k) {
            Some((_, end)) => end as int,
            None => position,
        } == if (k + 1) * window < total { (k + 1) * window } else { total as int },
{
    assert((k + 1) * window == k * window + window) by (nonlinear_arith);
    assert(0 <= k * window) by (nonlinear_arith)
        requires
            0 <= k,
            1 <= window,
    ;
}

/// Every thread can get `WINDOWS_PER_THREAD` windows, as long as there are
/// enough items: more than fill all but one of the windows aimed at. (For
/// fewer items rounding the window size up leaves fewer windows.)
pub proof fn law_windows_per_thread(total: usize, num_threads: usize)
    requires
        total > (target_windows(num_threads as int) - 1) * window_len_for(
            total as int,
            num_threads as int,
        ),
        num_threads * WINDOWS_PER_THREAD <= usize::MAX,
    ensures
        window_count(total as int, window_len_for(total as int, num_threads as int))
            >= num_threads * WINDOWS_PER_THREAD,
{
    let target = target_windows(num_threads as int);
    let window = window_len_for(total as int, num_threads as int);
    let sum = total + window - 1;
    let count = sum / window;
    vstd::arithmetic::div_mod::lemma_fundamental_div_mod(sum, window);
    assert(count >= target) by (nonlinear_arith)
        requires
            sum == window * count + sum % window,
            0 <= sum % window < window,
            total > (target - 1) * window,
            sum == total + window - 1,
            window >= 1,
    ;
}

/// The window size is the smallest with which no more windows are needed than
/// aimed at, but no larger than `MAX_WINDOW_SIZE`. Without threads the aim is one
/// window.
pub proof fn law_window_size_is_the_smallest_that_suffices(total: usize, num_threads: usize)
    requires
        num_threads * WINDOWS_PER_THREAD <= usize::MAX,
    ensures
        ({
            let window = window_len_for(total as int, num_threads as int);
            let aim = if num_threads == 0 {
                1
            } else {
                num_threads * WINDOWS_PER_THREAD
            };
            &&& 1 <= window <= MAX_WINDOW_SIZE
            &&& window * aim >= total || window == MAX_WINDOW_SIZE
            &&& window == 1 || (window - 1) * aim < total
        }),
{
    let window = window_len_for(total as int, num_threads as int);
    let aim = if num_threads == 0 {
        1
    } else {
        num_threads * WINDOWS_PER_THREAD
    };
    let even = arith::ceil_div(total as int, aim);
    arith::lemma_ceil_div(total as int, aim);
    if window < even {
        assert((window - 1) * aim <= (even - 1) * aim) by (nonlinear_arith)
            requires
                window <= even,
                aim >= 1,
        ;
    } else if even < window {
        assert(even * aim <= window * aim) by (nonlinear_arith)
            requires
                even <= window,
                aim >= 1,
        ;
    }
}

/// The slots after the given writes, in their order.
pub open spec fn after_writes<T>(slots: Seq<Option<T>>, writes: Seq<(int, T)>) -> Seq<Option<T>>
    decreases writes.len(),
{
    if writes.len() == 0 {
        slots
    } else {
        let (index, value) = writes.last();
        after_writes(slots, writes.drop_last()).update(index, Some(value))
    }
}

/// Results come back in the order of their slots, whatever the order of the
/// writes: when no slot is written twice, the slot of write number `w` holds
/// the value of that write.
pub proof fn law_results_do_not_depend_on_write_order<T>(
    slots: Seq<Option<T>>,
    writes: Seq<(int, T)>,
    w: int,
)
    requires
        forall|i: int| 0 <= i < writes.len() ==> 0 <= (#[trigger] writes[i]).0 < slots.len(),
        forall|i: int, j: int| 0 <= i < j < writes.len() ==> writes[i].0 != writes[j].0,
        0 <= w < writes.len(),
    ensures
        after_writes(slots, writes).len() == slots.len(),
        after_writes(slots, writes)[writes[w].0] == Some(writes[w].1),
    decreases writes.len(),
{
    let rest = writes.drop_last();
    assert forall|i: int| 0 <= i < rest.len() implies 0 <= (#[trigger] rest[i]).0 < slots.len() by {
        assert(rest[i] == writes[i]);
    }
    if rest.len() > 0 {
        let v = if w < rest.len() { w } else { 0 };
        law_results_do_not_depend_on_write_order(slots, rest, v);
    }
    assert(after_writes(slots, rest).len() == slots.len());
    if w < rest.len() {
        assert(writes[w].0 != writes[writes.len() - 1].0);
    }
}

} // verus!
