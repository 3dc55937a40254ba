//! The monitor's display state: which page is shown, whether sampling is paused,
//! and the sample histories.
use vstd::prelude::*;
use std::time::Instant;
use crate::clock::{duration_as_nanos, instant_elapsed, instant_now};
use crate::ring_buffer::{pushed, RingBuffer};

verus! {

/// How many samples each history keeps.
pub const HISTORY_SIZE: usize = 60;

/// The default time between two collections: one second, in nanoseconds.
pub const DEFAULT_INTERVAL_NANOS: u128 = 1_000_000_000;

/// The pages of the display, in the order in which `next` visits them.
#[derive(Debug, Clone, Copy, PartialEq, Eq, Structural)]
pub enum Page {
    Summary,
    Cpu,
    Processes,
}

/// The page after `p`, wrapping from the last to the first.
pub open spec fn page_after(p: Page) -> Page {
    match p {
        Page::Summary => Page::Cpu,
        Page::Cpu => Page::Processes,
        Page::Processes => Page::Summary,
    }
}

/// The page before `p`, wrapping from the first to the last.
pub open spec fn page_before(p: Page) -> Page {
    match p {
        Page::Summary => Page::Processes,
        Page::Cpu => Page::Summary,
        Page::Processes => Page::Cpu,
    }
}

impl Page {
    pub fn next(&self) -> (r: Page)
        ensures
            r == page_after(*self),
    {
        match self {
            Page::Summary => Page::Cpu,
            Page::Cpu => Page::Processes,
            Page::Processes => Page::Summary,
        }
    }

    pub fn prev(&self) -> (r: Page)
        ensures
            r == page_before(*self),
    {
        match self {
            Page::Summary => Page::Processes,
            Page::Cpu => Page::Summary,
            Page::Processes => Page::Cpu,
        }
    }
}

/// Going forward and then back, or back and then forward, returns to the same page;
/// three steps in either direction go round the whole cycle.
pub proof fn lemma_page_cycle(p: Page)
    ensures
        page_before(page_after(p)) == p,
        page_after(page_before(p)) == p,
        page_after(page_after(page_after(p))) == p,
        page_before(page_before(page_before(p))) == p,
        page_after(p) != p,
        page_before(p) != p,
{
}

/// The contents of each buffer of `h`.
pub open spec fn contents<T>(h: Seq<RingBuffer<T>>) -> Seq<Seq<T>> {
    h.map_values(|b: RingBuffer<T>| b@)
}

/// Whether `new` is the history `old` after recording one sample per entry of
/// `values`: the first values that arrive into an empty history create one buffer
/// of `HISTORY_SIZE` per value; then value `i` is pushed onto buffer `i`, where
/// there is such a buffer. Values beyond the buffers are dropped.
pub open spec fn recorded<T>(old: Seq<RingBuffer<T>>, new: Seq<RingBuffer<T>>, values: Seq<T>) -> bool {
    let fresh = old.len() == 0 && values.len() > 0;
    &&& new.len() == (if fresh {
        values.len()
    } else {
        old.len()
    })
    &&& forall|i: int|
        0 <= i < new.len() ==> {
            let cap = if fresh {
                HISTORY_SIZE as nat
            } else {
                old[i].cap()
            };
            let base = if fresh {
                Seq::empty()
            } else {
                old[i]@
            };
            &&& (#[trigger] new[i]).cap() == cap
            &&& new[i]@ == if i < values.len() {
                pushed(base, values[i], cap)
            } else {
                base
            }
        }
}

/// Whether every buffer of `h` that a value of `values` goes to can hold an item.
pub open spec fn can_record<T>(h: Seq<RingBuffer<T>>, values: Seq<T>) -> bool {
    forall|i: int| 0 <= i < h.len() && i < values.len() ==> (#[trigger] h[i]).cap() > 0
}

/// Records one sample per entry of `values` into `history` (see `recorded`).
fn record_into<T: Copy>(history: &mut Vec<RingBuffer<T>>, values: &Vec<T>)
    requires
        can_record(old(history)@, values@),
    ensures
        recorded(old(history)@, final(history)@, values@),
{
    let ghost h0 = history@;
    let fresh = history.len() == 0 && values.len() > 0;
    if fresh {
        let mut k: usize = 0;
        while k < values.len()
            invariant
                k <= values.len(),
                history@.len() == k,
                forall|j: int|
                    0 <= j < k ==> (#[trigger] history@[j]).cap() == HISTORY_SIZE && history@[j]@
                        == Seq::<T>::empty(),
            decreases values.len() - k,
        {
            history.push(RingBuffer::new(HISTORY_SIZE));
            k += 1;
        }
    }
    let ghost h1 = history@;
    let mut i: usize = 0;
    while i < values.len()
        invariant
            i <= values.len(),
            history@.len() == h1.len(),
            fresh ==> h1.len() == values.len(),
            fresh ==> forall|j: int|
                0 <= j < h1.len() ==> (#[trigger] h1[j]).cap() == HISTORY_SIZE && h1[j]@
                    == Seq::<T>::empty(),
            !fresh ==> h1 == h0,
            can_record(h0, values@),
            forall|j: int|
                0 <= j < h1.len() ==> {
                    &&& (#[trigger] history@[j]).cap() == h1[j].cap()
                    &&& history@[j]@ == if j < i {
                        pushed(h1[j]@, values@[j], h1[j].cap())
                    } else {
                        h1[j]@
                    }
                },
        decreases values.len() - i,
    {
        if i < history.len() {
            assert(h1[i as int].cap() > 0);
            history[i].push(values[i]);
        }
        i += 1;
    }
}

/// The monitor's state, over samples of type `T`.
pub struct AppState<T> {
    /// One history per processor line of `/proc/stat`.
    pub cpu_history: Vec<RingBuffer<T>>,
    /// The history of memory in use.
    pub mem_history: RingBuffer<T>,
    /// Two histories per device: bytes read and bytes written per second.
    pub disk_history: Vec<RingBuffer<T>>,
    pub page: Page,
    pub paused: bool,
    /// When samples were last collected; `None` before the first collection.
    pub last_collect: Option<Instant>,
    /// The time between two collections, in nanoseconds.
    pub collect_interval: u128,
}

/// Whether a tick collects samples: never while paused, at once when there has
/// been no collection yet (`since_last` is `None`), and otherwise once `interval`
/// nanoseconds have passed since the last one.
pub open spec fn tick_is_due(paused: bool, interval: u128, since_last: Option<u128>) -> bool {
    !paused && match since_last {
        None => true,
        Some(elapsed) => elapsed >= interval,
    }
}

impl<T: Copy> AppState<T> {
    /// A state on the summary page, not paused, with empty histories and no
    /// collection yet, so that the first tick collects at once.
    pub fn new() -> (s: Self)
        ensures
            s.page == Page::Summary,
            !s.paused,
            s.cpu_history@.len() == 0,
            s.mem_history@ == Seq::<T>::empty(),
            s.mem_history.cap() == HISTORY_SIZE,
            s.disk_history@.len() == 0,
            s.collect_interval == DEFAULT_INTERVAL_NANOS,
            s.last_collect is None,
    {
        AppState {
            cpu_history: Vec::new(),
            mem_history: RingBuffer::new(HISTORY_SIZE),
            disk_history: Vec::new(),
            page: Page::Summary,
            paused: false,
            last_collect: None,
            collect_interval: DEFAULT_INTERVAL_NANOS,
        }
    }

    /// Whether samples are due when `elapsed` nanoseconds have passed since the last
    /// collection: never while paused, and otherwise once `collect_interval` has
    /// passed.
    pub fn collect_due(&self, elapsed: u128) -> (due: bool)
        ensures
            due == (!self.paused && elapsed >= self.collect_interval),
    {
        !self.paused && elapsed >= self.collect_interval
    }

    /// Decides whether to collect samples now, given `since_last`, the nanoseconds
    /// passed since the last collection (`None` before the first one), and the
    /// current time `now` (see `tick_is_due`). When samples are due, `now` becomes
    /// the time of the last collection; otherwise nothing changes.
    pub fn tick_at(&mut self, since_last: Option<u128>, now: Instant) -> (due: bool)
        ensures
            due == tick_is_due(old(self).paused, old(self).collect_interval, since_last),
            due ==> final(self).last_collect == Some(now),
            !due ==> final(self).last_collect == old(self).last_collect,
            final(self).cpu_history == old(self).cpu_history,
            final(self).mem_history == old(self).mem_history,
            final(self).disk_history == old(self).disk_history,
            final(self).page == old(self).page,
            final(self).paused == old(self).paused,
            final(self).collect_interval == old(self).collect_interval,
    {
        let due = if self.paused {
            false
        } else {
            match since_last {
                Some(elapsed) => self.collect_due(elapsed),
                None => true,
            }
        };
        if due {
            self.last_collect = Some(now);
        }
        due
    }

    /// Reads the clock and decides whether to collect samples now (see `tick_at`).
    /// The first result is the decision, the second what was read as the
    /// nanoseconds since the last collection (`Instant::elapsed` of
    /// `last_collect`), or `None` where that is not read: while paused, and before
    /// the first collection. When samples are due, the time just read from the clock
    /// becomes the time of the last collection. Nothing else changes.
    pub fn tick_due(&mut self) -> (r: (bool, Option<u128>))
        ensures
            r.0 == tick_is_due(old(self).paused, old(self).collect_interval, r.1),
            r.1 is Some <==> !old(self).paused && old(self).last_collect is Some,
            old(self).paused ==> !r.0,
            !old(self).paused && old(self).last_collect is None ==> r.0,
            !old(self).paused && old(self).collect_interval == 0 ==> r.0,
            r.0 ==> final(self).last_collect is Some,
            !r.0 ==> final(self).last_collect == old(self).last_collect,
            final(self).cpu_history == old(self).cpu_history,
            final(self).mem_history == old(self).mem_history,
            final(self).disk_history == old(self).disk_history,
            final(self).page == old(self).page,
            final(self).paused == old(self).paused,
            final(self).collect_interval == old(self).collect_interval,
    {
        if self.paused {
            return (false, None);
        }
        let since_last = match &self.last_collect {
            Some(t) => Some(duration_as_nanos(&instant_elapsed(t))),
            None => None,
        };
        let due = self.tick_at(since_last, instant_now());
        (due, since_last)
    }

    /// Records one processor sample per entry of `values` (see `recorded`).
    pub fn record_cpu(&mut self, values: &Vec<T>)
        requires
            can_record(old(self).cpu_history@, values@),
        ensures
            recorded(old(self).cpu_history@, final(self).cpu_history@, values@),
            final(self).mem_history == old(self).mem_history,
            final(self).disk_history == old(self).disk_history,
            final(self).page == old(self).page,
            final(self).paused == old(self).paused,
            final(self).last_collect == old(self).last_collect,
            final(self).collect_interval == old(self).collect_interval,
    {
        record_into(&mut self.cpu_history, values);
    }

    /// Records the memory in use, the first of `values`, if there is one.
    pub fn record_mem(&mut self, values: &Vec<T>)
        requires
            values@.len() > 0 ==> old(self).mem_history.cap() > 0,
        ensures
            final(self).mem_history.cap() == old(self).mem_history.cap(),
            final(self).mem_history@ == if values@.len() > 0 {
                pushed(old(self).mem_history@, values@[0], old(self).mem_history.cap())
            } else {
                old(self).mem_history@
            },
            final(self).cpu_history == old(self).cpu_history,
            final(self).disk_history == old(self).disk_history,
            final(self).page == old(self).page,
            final(self).paused == old(self).paused,
            final(self).last_collect == old(self).last_collect,
            final(self).collect_interval == old(self).collect_interval,
    {
        if values.len() > 0 {
            self.mem_history.push(values[0]);
        }
    }

    /// Records one disk sample per entry of `values` (see `recorded`).
    pub fn record_disk(&mut self, values: &Vec<T>)
        requires
            can_record(old(self).disk_history@, values@),
        ensures
            recorded(old(self).disk_history@, final(self).disk_history@, values@),
            final(self).cpu_history == old(self).cpu_history,
            final(self).mem_history == old(self).mem_history,
            final(self).page == old(self).page,
            final(self).paused == old(self).paused,
            final(self).last_collect == old(self).last_collect,
            final(self).collect_interval == old(self).collect_interval,
    {
        record_into(&mut self.disk_history, values);
    }

    pub fn next_page(&mut self)
        ensures
            final(self).page == page_after(old(self).page),
            final(self).paused == old(self).paused,
            final(self).cpu_history == old(self).cpu_history,
            final(self).mem_history == old(self).mem_history,
            final(self).disk_history == old(self).disk_history,
            final(self).last_collect == old(self).last_collect,
            final(self).collect_interval == old(self).collect_interval,
    {
        self.page = self.page.next();
    }

    pub fn prev_page(&mut self)
        ensures
            final(self).page == page_before(old(self).page),
            final(self).paused == old(self).paused,
            final(self).cpu_history == old(self).cpu_history,
            final(self).mem_history == old(self).mem_history,
            final(self).disk_history == old(self).disk_history,
            final(self).last_collect == old(self).last_collect,
            final(self).collect_interval == old(self).collect_interval,
    {
        self.page = self.page.prev();
    }

    pub fn toggle_pause(&mut self)
        ensures
            final(self).paused == !old(self).paused,
            final(self).page == old(self).page,
            final(self).cpu_history == old(self).cpu_history,
            final(self).mem_history == old(self).mem_history,
            final(self).disk_history == old(self).disk_history,
            final(self).last_collect == old(self).last_collect,
            final(self).collect_interval == old(self).collect_interval,
    {
        self.paused = !self.paused;
    }
}

} // verus!
