//! The decisions of the server's main loop: which event leads to which work,
//! and when the server stops.
use vstd::prelude::*;

verus! {

/// What the main loop has just observed.
#[derive(Clone, Copy, Debug, PartialEq, Eq, Structural)]
pub enum Event {
    /// A client connected.
    Connection,
    /// The periodic snapshot timer fired.
    Tick,
    /// The process was asked to stop.
    Interrupt,
}

/// What the main loop is to do about an event.
#[derive(Clone, Copy, Debug, PartialEq, Eq, Structural)]
pub enum Action {
    /// Serve the connection.
    Serve,
    /// Write a snapshot and go on.
    Flush,
    /// Write the last snapshot and exit.
    FinalFlush,
    /// Nothing: the server is stopping.
    Ignore,
}

/// The action for `event` in a server that is, or is not, stopping.
pub open spec fn next_action(stopping: bool, event: Event) -> Action {
    if stopping {
        Action::Ignore
    } else {
        match event {
            Event::Connection => Action::Serve,
            Event::Tick => Action::Flush,
            Event::Interrupt => Action::FinalFlush,
        }
    }
}

/// The actions taken for a run of events.
pub open spec fn run(stopping: bool, events: Seq<Event>) -> Seq<Action>
    decreases events.len(),
{
    if events.len() == 0 {
        Seq::empty()
    } else {
        seq![next_action(stopping, events[0])] + run(
            stopping || events[0] == Event::Interrupt,
            events.skip(1),
        )
    }
}

/// Whether an interrupt stands in `events` before `i`.
pub open spec fn interrupted_before(events: Seq<Event>, i: int) -> bool {
    exists|j: int| 0 <= j < i && #[trigger] events[j] == Event::Interrupt
}

/// The state of the main loop.
pub struct Coordinator {
    stopping: bool,
}

impl Coordinator {
    /// Whether the stop has been observed.
    pub closed spec fn stopping(&self) -> bool {
        self.stopping
    }

    /// A loop that serves.
    pub fn new() -> (c: Coordinator)
        ensures
            !c.stopping(),
    {
        Coordinator { stopping: false }
    }

    /// Whether the stop has been observed.
    pub fn is_stopping(&self) -> (r: bool)
        ensures
            r == self.stopping(),
    {
        self.stopping
    }

    /// Decides what to do about `event`: a connection is served and a timer
    /// tick writes a snapshot while the server runs; the first interrupt
    /// writes the last snapshot and stops the server; once stopped, nothing
    /// more is done.
    pub fn on_event(&mut self, event: Event) -> (a: Action)
        ensures
            a == next_action(old(self).stopping(), event),
            final(self).stopping() == (old(self).stopping() || event == Event::Interrupt),
    {
        if self.stopping {
            Action::Ignore
        } else {
            match event {
                Event::Connection => Action::Serve,
                Event::Tick => Action::Flush,
                Event::Interrupt => {
                    self.stopping = true;
                    Action::FinalFlush
                },
            }
        }
    }
}

proof fn lemma_run_facts(stopping: bool, events: Seq<Event>)
    ensures
        run(stopping, events).len() == events.len(),
        forall|i: int|
            0 <= i < events.len() ==> #[trigger] run(stopping, events)[i] == next_action(
                stopping || interrupted_before(events, i),
                events[i],
            ),
    decreases events.len(),
{
    if events.len() > 0 {
        let tail = events.skip(1);
        let s2 = stopping || events[0] == Event::Interrupt;
        lemma_run_facts(s2, tail);
        assert forall|i: int| 0 <= i < events.len() implies #[trigger] run(stopping, events)[i]
            == next_action(stopping || interrupted_before(events, i), events[i]) by {
            if i == 0 {
                assert(!interrupted_before(events, 0));
            } else {
                assert(run(stopping, events)[i] == run(s2, tail)[i - 1]);
                assert(tail[i - 1] == events[i]);
                if interrupted_before(tail, i - 1) {
                    let j = choose|j: int| 0 <= j < i - 1 && #[trigger] tail[j] == Event::Interrupt;
                    assert(events[j + 1] == Event::Interrupt);
                }
                if interrupted_before(events, i) {
                    let j = choose|j: int| 0 <= j < i && #[trigger] events[j] == Event::Interrupt;
                    if j > 0 {
                        assert(tail[j - 1] == Event::Interrupt);
                    }
                }
            }
        }
    }
}

/// From a serving loop, over any run of events: an event is served or
/// flushed exactly when no interrupt came before it; the last snapshot is
/// written at the first interrupt and there only, and nothing is done after
/// it.
pub proof fn lemma_single_final_flush(events: Seq<Event>)
    ensures
        run(false, events).len() == events.len(),
        forall|i: int|
            0 <= i < events.len() ==> (#[trigger] run(false, events)[i] == Action::FinalFlush
                <==> events[i] == Event::Interrupt && !interrupted_before(events, i)),
        forall|i: int, j: int|
            0 <= i < j < events.len() && #[trigger] run(false, events)[i] == Action::FinalFlush
                ==> #[trigger] run(false, events)[j] == Action::Ignore,
{
    lemma_run_facts(false, events);
    assert forall|i: int, j: int|
        0 <= i < j < events.len() && #[trigger] run(false, events)[i] == Action::FinalFlush
            implies #[trigger] run(false, events)[j] == Action::Ignore by {
        assert(events[i] == Event::Interrupt);
        assert(interrupted_before(events, j));
    }
}

} // verus!
