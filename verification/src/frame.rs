//! Frame pacing: which events of the window's event loop start a frame, how
//! the events between frames are handed to the frame, how the loop goes on,
//! and the window bookkeeping done once per frame.

use vstd::prelude::*;

verus! {

/// What a frame asks of the event loop.
#[derive(Clone, Copy, Debug, PartialEq, Eq, Structural)]
pub enum Action {
    Stop,
    Continue,
}

/// An event of the window's event loop, as frame pacing sees it.
pub enum LoopEvent<E> {
    /// The loop woke up because the next frame is due, or for the first time.
    FrameDue,
    /// The loop woke up for another reason.
    Wake,
    /// Any other event, to be handed to the next frame.
    Event(E),
    /// An event that cannot be kept past the current call of the loop.
    Transient,
}

/// How the event loop goes on.
#[derive(Clone, Copy, Debug, PartialEq, Eq, Structural)]
pub enum LoopControl {
    /// Sleep until the next frame is due.
    WaitForNextFrame,
    /// Leave the loop.
    Exit,
}

/// The events that one loop event adds to the pending ones.
pub open spec fn pending_after<E>(pending: Seq<E>, event: LoopEvent<E>) -> Seq<E> {
    match event {
        LoopEvent::Event(e) => pending.push(e),
        _ => pending,
    }
}

/// The payloads of the events, in order.
pub open spec fn payloads<E>(events: Seq<LoopEvent<E>>) -> Seq<E>
    decreases events.len(),
{
    if events.len() == 0 {
        Seq::empty()
    } else {
        pending_after(payloads(events.drop_last()), events.last())
    }
}

/// The loop control for a frame's action: a frame that asks to go on waits for the
/// next frame; one that asks to stop leaves the loop.
pub open spec fn control_spec(action: Action) -> LoopControl {
    match action {
        Action::Continue => LoopControl::WaitForNextFrame,
        Action::Stop => LoopControl::Exit,
    }
}

/// Takes one event of the loop: an event to hand on is added to the pending
/// events; returns whether a frame is due now.
pub fn take_event<E>(pending: &mut Vec<E>, event: LoopEvent<E>) -> (frame_due: bool)
    ensures
        frame_due == (event is FrameDue),
        final(pending)@ == pending_after(old(pending)@, event),
        event matches LoopEvent::Event(e) ==> final(pending)@ == old(pending)@.push(e),
        !(event is Event) ==> final(pending)@ == old(pending)@,
{
    match event {
        LoopEvent::FrameDue => true,
        LoopEvent::Wake => false,
        LoopEvent::Event(e) => {
            pending.push(e);
            false
        },
        LoopEvent::Transient => false,
    }
}

/// The loop control for a frame's action.
pub fn control_for(action: Action) -> (control: LoopControl)
    ensures
        control == control_spec(action),
{
    match action {
        Action::Continue => LoopControl::WaitForNextFrame,
        Action::Stop => LoopControl::Exit,
    }
}

/// Ends a frame: the pending events have been handed to it, so they are dropped;
/// gives the loop control for the frame's action.
pub fn end_frame<E>(pending: &mut Vec<E>, action: Action) -> (control: LoopControl)
    ensures
        final(pending)@ == Seq::<E>::empty(),
        control == control_spec(action),
{
    pending.clear();
    control_for(action)
}

/// `x` came as the payload of one of the events.
pub open spec fn came_as_event<E>(events: Seq<LoopEvent<E>>, x: E) -> bool {
    exists|i: int| 0 <= i < events.len() && events[i] == LoopEvent::Event(x)
}

/// Every event that comes between two frames reaches the next frame, and nothing
/// else does: the pending events are the events' payloads, in order.
pub proof fn lemma_frame_gets_every_event<E>(events: Seq<LoopEvent<E>>)
    ensures
        payloads(events).len() <= events.len(),
        forall|j: int| 0 <= j < payloads(events).len() ==> #[trigger] came_as_event(events, payloads(events)[j]),
        forall|i: int|
            0 <= i < events.len() ==> (#[trigger] events[i] is Event ==> payloads(events).contains(
                events[i]->Event_0,
            )),
    decreases events.len(),
{
    if events.len() > 0 {
        let rest = events.drop_last();
        lemma_frame_gets_every_event(rest);
        assert forall|i: int| 0 <= i < events.len() implies (#[trigger] events[i] is Event
            ==> payloads(events).contains(events[i]->Event_0)) by {
            if events[i] is Event {
                if i < events.len() - 1 {
                    assert(rest[i] == events[i]);
                    let j = choose|j: int|
                        0 <= j < payloads(rest).len() && payloads(rest)[j] == rest[i]->Event_0;
                    if events.last() is Event {
                        assert(payloads(events)[j] == payloads(rest)[j]);
                    }
                } else {
                    assert(payloads(events)[payloads(rest).len() as int] == events[i]->Event_0);
                }
            }
        }
        assert forall|j: int| 0 <= j < payloads(events).len() implies #[trigger] came_as_event(events, payloads(events)[j]) by {
            if j < payloads(rest).len() {
                assert(came_as_event(rest, payloads(rest)[j]));
                let i = choose|i: int| 0 <= i < rest.len() && rest[i] == LoopEvent::Event(payloads(rest)[j]);
                assert(events[i] == rest[i]);
                assert(payloads(events)[j] == payloads(rest)[j]);
            } else {
                let last = events.len() - 1;
                assert(events[last] == LoopEvent::Event(payloads(events)[j]));
            }
        }
    }
}

/// The payload that a loop event hands to the next frame, if any.
pub open spec fn event_payload<E>() -> spec_fn(LoopEvent<E>) -> Option<E> {
    |ev: LoopEvent<E>|
        match ev {
            LoopEvent::Event(e) => Some(e),
            _ => None,
        }
}

/// The next frame gets exactly the payloads of the events that came between the
/// frames, in the order in which they came: the other events dropped, nothing
/// reordered.
pub proof fn lemma_frame_gets_events_in_order<E>(events: Seq<LoopEvent<E>>)
    ensures
        payloads(events) == events.filter_map(event_payload()),
    decreases events.len(),
{
    if events.len() > 0 {
        lemma_frame_gets_events_in_order(events.drop_last());
        if let LoopEvent::Event(e) = events.last() {
            assert(payloads(events) =~= events.drop_last().filter_map(event_payload()) + seq![e]);
        }
    }
}

/// The window size seen in a frame, and whether it changed since the previous frame.
#[derive(Clone, Copy, Debug, PartialEq, Eq, Structural)]
pub struct WindowSize {
    pub width: u32,
    pub height: u32,
    pub resized: bool,
}

/// The window size for a frame whose framebuffer measures `width x height`, after
/// a frame that saw `old_width x old_height`.
pub fn window_resize(old_width: u32, old_height: u32, width: u32, height: u32) -> (size: WindowSize)
    ensures
        size.width == width,
        size.height == height,
        size.resized == (old_width != width || old_height != height),
{
    if old_width != width || old_height != height {
        WindowSize { width, height, resized: true }
    } else {
        WindowSize { width: old_width, height: old_height, resized: false }
    }
}

/// `std::time::Instant`, a point of the monotonic clock, carried through opaquely.
#[verifier::external_type_specification]
#[verifier::external_body]
pub struct ExInstant(std::time::Instant);

/// `std::time::Instant::now`: the current time of the monotonic clock. Nothing is
/// stated of the value, which depends on the time of the call.
#[verifier::external_body]
fn instant_now() -> std::time::Instant {
    std::time::Instant::now()
}

/// The system that updates the window bookkeeping once per frame; it remembers
/// when the previous frame began.
pub struct UpdateWindowSystem {
    last_frame_time: std::time::Instant,
}

impl UpdateWindowSystem {
    /// The time at which the previous frame began.
    pub closed spec fn last_frame(&self) -> std::time::Instant {
        self.last_frame_time
    }

    /// A system whose previous frame began now: it remembers the clock's reading
    /// taken during the call (nothing is stated of that reading itself).
    pub fn new() -> (system: UpdateWindowSystem) {
        UpdateWindowSystem::starting_at(instant_now())
    }

    /// A system whose previous frame began at `now`.
    pub fn starting_at(now: std::time::Instant) -> (system: UpdateWindowSystem)
        ensures
            system.last_frame() == now,
    {
        UpdateWindowSystem { last_frame_time: now }
    }

    /// Starts a frame that begins at `current`: remembers it, and gives the time
    /// at which the previous frame began.
    pub fn start_frame(&mut self, current: std::time::Instant) -> (previous: std::time::Instant)
        ensures
            previous == old(self).last_frame(),
            final(self).last_frame() == current,
    {
        let previous = self.last_frame_time;
        self.last_frame_time = current;
        previous
    }
}

} // verus!
