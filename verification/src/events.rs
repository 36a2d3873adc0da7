//! Timing of events, and their way into the queue.
use crate::binary32;
use crate::channel::{self, Delivery, EventSink};
use crate::protocol;
use vstd::prelude::*;

verus! {

/// When the last event of each kind was, in nanoseconds since the start.
#[derive(Clone, Copy, PartialEq, Eq, Structural, Debug)]
pub struct Timeline {
    pub last_display_ns: u64,
    pub last_mouse_ns: u64,
}

/// A count of nanoseconds in 64 bits; what does not fit is cut off at the top.
pub open spec fn clock_ns(nanos: u128) -> u64 {
    (nanos % 0x1_0000_0000_0000_0000) as u64
}

/// The time from `last` to `now`, or zero if `now` is earlier.
pub open spec fn delta_ns(last: u64, now: u64) -> u64 {
    if now >= last {
        (now - last) as u64
    } else {
        0
    }
}

impl Timeline {
    /// The timeline at the start: no event yet.
    pub fn new() -> (timeline: Timeline)
        ensures
            timeline == (Timeline { last_display_ns: 0, last_mouse_ns: 0 }),
    {
        Timeline { last_display_ns: 0, last_mouse_ns: 0 }
    }

    /// Records a display refresh and returns the time since the one before.
    pub fn display(&mut self, nanos: u128) -> (delta: u64)
        ensures
            *final(self) == (Timeline { last_display_ns: clock_ns(nanos), ..*old(self) }),
            delta == delta_ns(old(self).last_display_ns, clock_ns(nanos)),
            nanos < 0x1_0000_0000_0000_0000 ==> final(self).last_display_ns == nanos,
            old(self).last_display_ns <= nanos < 0x1_0000_0000_0000_0000 ==> delta == nanos
                - old(self).last_display_ns,
            nanos < old(self).last_display_ns ==> delta == 0,
            final(self).last_mouse_ns == old(self).last_mouse_ns,
    {
        let now: u64 = (nanos % 0x1_0000_0000_0000_0000) as u64;
        let delta: u64 = now.saturating_sub(self.last_display_ns);
        self.last_display_ns = now;
        delta
    }

    /// Records a mouse movement and returns the time since the one before.
    pub fn mouse(&mut self, nanos: u128) -> (delta: u64)
        ensures
            *final(self) == (Timeline { last_mouse_ns: clock_ns(nanos), ..*old(self) }),
            delta == delta_ns(old(self).last_mouse_ns, clock_ns(nanos)),
            nanos < 0x1_0000_0000_0000_0000 ==> final(self).last_mouse_ns == nanos,
            old(self).last_mouse_ns <= nanos < 0x1_0000_0000_0000_0000 ==> delta == nanos
                - old(self).last_mouse_ns,
            nanos < old(self).last_mouse_ns ==> delta == 0,
            final(self).last_display_ns == old(self).last_display_ns,
    {
        let now: u64 = (nanos % 0x1_0000_0000_0000_0000) as u64;
        let delta: u64 = now.saturating_sub(self.last_mouse_ns);
        self.last_mouse_ns = now;
        delta
    }
}

/// Sends the message for an event; `data` holds binary32 patterns. Without a
/// sink there is nothing to do.
pub fn send_event(
    sink: &mut Option<EventSink>,
    event_type: u8,
    delta_ns: u64,
    data: Option<(u32, u32)>,
) -> (delivery: Delivery)
    ensures
        channel::sent(
            *old(sink),
            *final(sink),
            protocol::event_frame(event_type, delta_ns, data),
            delivery,
        ),
{
    match sink {
        None => Delivery::Skipped,
        Some(sink) => sink.send(protocol::encode_event(event_type, delta_ns, data)),
    }
}

/// Sends a display refresh that happened `elapsed` nanoseconds after the
/// start. Before the start nothing is recorded or sent.
pub fn send_display_event(
    sink: &mut Option<EventSink>,
    timeline: &mut Timeline,
    elapsed: Option<u128>,
) -> (delivery: Delivery)
    ensures
        display_event_sent(
            *old(sink),
            *final(sink),
            *old(timeline),
            *final(timeline),
            elapsed,
            delivery,
        ),
{
    match elapsed {
        None => Delivery::Skipped,
        Some(nanos) => {
            let delta: u64 = timeline.display(nanos);
            send_event(sink, protocol::EVENT_TYPE_DISPLAY, delta, None)
        },
    }
}

/// What a display refresh does, `elapsed` nanoseconds after the start: it is
/// recorded, and its message is handed to the sink. Before the start it does
/// nothing.
pub open spec fn display_event_sent(
    sink: Option<EventSink>,
    new_sink: Option<EventSink>,
    timeline: Timeline,
    new_timeline: Timeline,
    elapsed: Option<u128>,
    delivery: Delivery,
) -> bool {
    match elapsed {
        None => new_timeline == timeline && new_sink == sink && delivery is Skipped,
        Some(nanos) => {
            &&& new_timeline == (Timeline { last_display_ns: clock_ns(nanos), ..timeline })
            &&& channel::sent(
                sink,
                new_sink,
                protocol::display_frame(delta_ns(timeline.last_display_ns, clock_ns(nanos))),
                delivery,
            )
        },
    }
}

/// What a mouse movement by `(x, y)` does, `elapsed` nanoseconds after the
/// start: it is recorded, and its message is handed to the sink. Before the
/// start it does nothing.
pub open spec fn mouse_event_sent(
    sink: Option<EventSink>,
    new_sink: Option<EventSink>,
    timeline: Timeline,
    new_timeline: Timeline,
    elapsed: Option<u128>,
    x: int,
    y: int,
    delivery: Delivery,
) -> bool {
    match elapsed {
        None => new_timeline == timeline && new_sink == sink && delivery is Skipped,
        Some(nanos) => {
            &&& new_timeline == (Timeline { last_mouse_ns: clock_ns(nanos), ..timeline })
            &&& channel::sent(
                sink,
                new_sink,
                protocol::mouse_frame(delta_ns(timeline.last_mouse_ns, clock_ns(nanos)), x, y),
                delivery,
            )
        },
    }
}

/// Sends a mouse movement by `(x, y)` that happened `elapsed` nanoseconds
/// after the start. Before the start nothing is recorded or sent.
pub fn send_mouse_event(
    sink: &mut Option<EventSink>,
    timeline: &mut Timeline,
    elapsed: Option<u128>,
    x: i32,
    y: i32,
) -> (delivery: Delivery)
    ensures
        mouse_event_sent(
            *old(sink),
            *final(sink),
            *old(timeline),
            *final(timeline),
            elapsed,
            x as int,
            y as int,
            delivery,
        ),
{
    match elapsed {
        None => Delivery::Skipped,
        Some(nanos) => {
            let delta: u64 = timeline.mouse(nanos);
            let data: Option<(u32, u32)> = Some(
                (binary32::binary32_bits(x), binary32::binary32_bits(y)),
            );
            send_event(sink, protocol::EVENT_TYPE_MOUSE, delta, data)
        },
    }
}

/// The times between consecutive readings of one clock, the first counted
/// from `last`.
pub open spec fn deltas(last: u64, readings: Seq<u64>) -> Seq<u64>
    decreases readings.len(),
{
    if readings.len() == 0 {
        Seq::empty()
    } else {
        deltas(last, readings.drop_last()).push(
            delta_ns(
                if readings.len() == 1 {
                    last
                } else {
                    readings[readings.len() - 2]
                },
                readings.last(),
            ),
        )
    }
}

/// The sum of some times.
pub open spec fn total(times: Seq<u64>) -> nat
    decreases times.len(),
{
    if times.len() == 0 {
        0
    } else {
        total(times.drop_last()) + times.last() as nat
    }
}

/// On a clock that does not run backwards, the times sent with the events of
/// one kind add up to the time of the last event: nothing is lost or counted
/// twice between two messages.
pub proof fn lemma_deltas_add_up(last: u64, readings: Seq<u64>)
    requires
        readings.len() > 0,
        last <= readings[0],
        forall|i: int, j: int| 0 <= i <= j < readings.len() ==> readings[i] <= readings[j],
    ensures
        total(deltas(last, readings)) == readings.last() - last,
    decreases readings.len(),
{
    let head = readings.drop_last();
    let times = deltas(last, readings);
    assert(times.drop_last() =~= deltas(last, head));
    if readings.len() == 1 {
        assert(deltas(last, head).len() == 0);
        assert(total(deltas(last, head)) == 0);
    } else {
        lemma_deltas_add_up(last, head);
        assert(readings[readings.len() - 2] <= readings[readings.len() - 1]);
    }
}

/// The messages for some events.
pub open spec fn frames(calls: Seq<(u8, u64, Option<(u32, u32)>)>) -> Seq<Seq<u8>> {
    Seq::new(calls.len(), |i: int| protocol::event_frame(calls[i].0, calls[i].1, calls[i].2))
}

/// The logs of some sinks.
pub open spec fn sink_logs(sinks: Seq<EventSink>) -> Seq<Seq<(Seq<u8>, bool)>> {
    Seq::new(sinks.len(), |i: int| sinks[i]@)
}

/// Events that are sent one after another are handed to the queue in that
/// order, each as one message and nothing between them, and every message is
/// read back as the event that was sent: `sinks` is the sink before and after
/// each call.
pub proof fn lemma_events_sent_in_order(
    sinks: Seq<EventSink>,
    calls: Seq<(u8, u64, Option<(u32, u32)>)>,
    deliveries: Seq<Delivery>,
)
    requires
        sinks.len() == calls.len() + 1,
        deliveries.len() == calls.len(),
        forall|i: int|
            #![trigger calls[i]]
            0 <= i < calls.len() ==> channel::sent(
                Some(sinks[i]),
                Some(sinks[i + 1]),
                protocol::event_frame(calls[i].0, calls[i].1, calls[i].2),
                deliveries[i],
            ),
    ensures
        sinks.last()@ == sinks[0]@ + channel::entries(frames(calls), deliveries),
        forall|i: int|
            0 <= i < calls.len() ==> protocol::decoded(
                #[trigger] sinks.last()@[sinks[0]@.len() + i].0,
            ) == calls[i],
{
    let logs = sink_logs(sinks);
    assert forall|i: int|
        #![trigger frames(calls)[i]]
        0 <= i < calls.len() implies channel::handed_over(
        logs[i],
        logs[i + 1],
        frames(calls)[i],
        deliveries[i],
    ) by {
        assert(frames(calls)[i] == protocol::event_frame(calls[i].0, calls[i].1, calls[i].2));
    }
    channel::lemma_handed_over_in_order(logs, frames(calls), deliveries);
    assert forall|i: int| 0 <= i < calls.len() implies protocol::decoded(
        #[trigger] sinks.last()@[sinks[0]@.len() + i].0,
    ) == calls[i] by {
        protocol::lemma_decoded(calls[i].0, calls[i].1, calls[i].2);
        assert(sinks.last()@[sinks[0]@.len() + i] == channel::entries(
            frames(calls),
            deliveries,
        )[i]);
    }
}

/// An event that is sent, and when it happened.
pub enum Happening {
    /// A display refresh.
    Display(u128),
    /// A mouse movement along x and y.
    Mouse(u128, int, int),
}

/// Whether the event was sent after the start, through a sink that is there.
pub open spec fn happening_sent(
    sink: EventSink,
    new_sink: EventSink,
    timeline: Timeline,
    new_timeline: Timeline,
    happening: Happening,
    delivery: Delivery,
) -> bool {
    match happening {
        Happening::Display(nanos) => display_event_sent(
            Some(sink),
            Some(new_sink),
            timeline,
            new_timeline,
            Some(nanos),
            delivery,
        ),
        Happening::Mouse(nanos, x, y) => mouse_event_sent(
            Some(sink),
            Some(new_sink),
            timeline,
            new_timeline,
            Some(nanos),
            x,
            y,
            delivery,
        ),
    }
}

/// The clock readings of the display refreshes among some events.
pub open spec fn display_readings(happenings: Seq<Happening>) -> Seq<u64>
    decreases happenings.len(),
{
    if happenings.len() == 0 {
        Seq::empty()
    } else {
        let head = display_readings(happenings.drop_last());
        match happenings.last() {
            Happening::Display(nanos) => head.push(clock_ns(nanos)),
            Happening::Mouse(..) => head,
        }
    }
}

/// The clock readings of the mouse movements among some events.
pub open spec fn mouse_readings(happenings: Seq<Happening>) -> Seq<u64>
    decreases happenings.len(),
{
    if happenings.len() == 0 {
        Seq::empty()
    } else {
        let head = mouse_readings(happenings.drop_last());
        match happenings.last() {
            Happening::Mouse(nanos, ..) => head.push(clock_ns(nanos)),
            Happening::Display(_) => head,
        }
    }
}

/// The times that a client reads from the messages of one kind.
pub open spec fn times_read(messages: Seq<Seq<u8>>, event_type: u8) -> Seq<u64>
    decreases messages.len(),
{
    if messages.len() == 0 {
        Seq::empty()
    } else {
        let head = times_read(messages.drop_last(), event_type);
        let event = protocol::decoded(messages.last());
        if event.0 == event_type {
            head.push(event.1)
        } else {
            head
        }
    }
}

/// The last of some readings, or else the one before them.
pub open spec fn last_reading(before: u64, readings: Seq<u64>) -> u64 {
    if readings.len() == 0 {
        before
    } else {
        readings.last()
    }
}

/// One more message of any kind.
proof fn lemma_times_read_push(messages: Seq<Seq<u8>>, message: Seq<u8>, event_type: u8)
    ensures
        times_read(messages.push(message), event_type) == (if protocol::decoded(message).0
            == event_type {
            times_read(messages, event_type).push(protocol::decoded(message).1)
        } else {
            times_read(messages, event_type)
        }),
{
    assert(messages.push(message).drop_last() =~= messages);
}

/// One more reading.
proof fn lemma_deltas_push(last: u64, readings: Seq<u64>, reading: u64)
    ensures
        deltas(last, readings.push(reading)) == deltas(last, readings).push(
            delta_ns(last_reading(last, readings), reading),
        ),
{
    assert(readings.push(reading).drop_last() =~= readings);
}

/// However display refreshes and mouse movements are mixed, the messages that
/// are handed to the queue are one for each of them, and the times that a
/// client reads from those of one kind are the times between the events of
/// that kind: `sinks` and `timelines` are the sink and the timeline before and
/// after each event.
pub proof fn lemma_times_sent(
    sinks: Seq<EventSink>,
    timelines: Seq<Timeline>,
    happenings: Seq<Happening>,
    deliveries: Seq<Delivery>,
)
    requires
        sinks.len() == happenings.len() + 1,
        timelines.len() == happenings.len() + 1,
        deliveries.len() == happenings.len(),
        forall|i: int|
            #![trigger happenings[i]]
            0 <= i < happenings.len() ==> happening_sent(
                sinks[i],
                sinks[i + 1],
                timelines[i],
                timelines[i + 1],
                happenings[i],
                deliveries[i],
            ),
    ensures
        sinks.last()@.len() == sinks[0]@.len() + happenings.len(),
        sinks.last()@.take(sinks[0]@.len() as int) == sinks[0]@,
        ({
            let added = channel::messages(sinks.last()@.skip(sinks[0]@.len() as int));
            &&& times_read(added, protocol::EVENT_TYPE_DISPLAY) == deltas(
                timelines[0].last_display_ns,
                display_readings(happenings),
            )
            &&& times_read(added, protocol::EVENT_TYPE_MOUSE) == deltas(
                timelines[0].last_mouse_ns,
                mouse_readings(happenings),
            )
        }),
        timelines.last().last_display_ns == last_reading(
            timelines[0].last_display_ns,
            display_readings(happenings),
        ),
        timelines.last().last_mouse_ns == last_reading(
            timelines[0].last_mouse_ns,
            mouse_readings(happenings),
        ),
    decreases happenings.len(),
{
    let start = sinks[0]@.len() as int;
    let added = channel::messages(sinks.last()@.skip(start));
    if happenings.len() == 0 {
        assert(added =~= Seq::empty());
        assert(sinks.last()@.take(start) =~= sinks[0]@);
    } else {
        let n = happenings.len() - 1;
        let head = happenings.drop_last();
        assert forall|i: int| #![trigger head[i]] 0 <= i < head.len() implies happening_sent(
            sinks.drop_last()[i],
            sinks.drop_last()[i + 1],
            timelines.drop_last()[i],
            timelines.drop_last()[i + 1],
            head[i],
            deliveries.drop_last()[i],
        ) by {
            assert(head[i] == happenings[i]);
        }
        lemma_times_sent(
            sinks.drop_last(),
            timelines.drop_last(),
            head,
            deliveries.drop_last(),
        );
        let before = channel::messages(sinks[n]@.skip(start));
        assert(happening_sent(
            sinks[n],
            sinks[n + 1],
            timelines[n],
            timelines[n + 1],
            happenings[n],
            deliveries[n],
        ));
        let message = sinks[n + 1]@.last().0;
        assert(sinks[n + 1]@.take(start) =~= sinks[n]@.take(start));
        assert(added =~= before.push(message));
        lemma_times_read_push(before, message, protocol::EVENT_TYPE_DISPLAY);
        lemma_times_read_push(before, message, protocol::EVENT_TYPE_MOUSE);
        match happenings[n] {
            Happening::Display(nanos) => {
                let now = clock_ns(nanos);
                let delta = delta_ns(timelines[n].last_display_ns, now);
                protocol::lemma_decoded(protocol::EVENT_TYPE_DISPLAY, delta, None);
                lemma_deltas_push(timelines[0].last_display_ns, display_readings(head), now);
            },
            Happening::Mouse(nanos, x, y) => {
                let now = clock_ns(nanos);
                let delta = delta_ns(timelines[n].last_mouse_ns, now);
                protocol::lemma_decoded(
                    protocol::EVENT_TYPE_MOUSE,
                    delta,
                    protocol::movement_data(x, y),
                );
                lemma_deltas_push(timelines[0].last_mouse_ns, mouse_readings(head), now);
            },
        }
    }
}

/// Below 2^64 nanoseconds, which is over five centuries, the clock shows the
/// time that has passed; there it starts again.
pub proof fn lemma_clock(nanos: u128)
    ensures
        nanos < 0x1_0000_0000_0000_0000 ==> clock_ns(nanos) == nanos,
        nanos >= 0x1_0000_0000_0000_0000 ==> clock_ns(nanos) == clock_ns(
            (nanos - 0x1_0000_0000_0000_0000) as u128,
        ),
{
}

/// A display refresh, `nanos` after the start, adds one message to the log: a
/// zero and the time since the refresh before it. That time is counted from
/// the refresh itself, and mouse movements make no difference.
pub proof fn lemma_display_event_message(
    sink: EventSink,
    new_sink: Option<EventSink>,
    timeline: Timeline,
    new_timeline: Timeline,
    nanos: u128,
    delivery: Delivery,
)
    requires
        display_event_sent(
            Some(sink),
            new_sink,
            timeline,
            new_timeline,
            Some(nanos),
            delivery,
        ),
    ensures
        ({
            let now = nanos % 0x1_0000_0000_0000_0000;
            let time = if now >= timeline.last_display_ns {
                now - timeline.last_display_ns
            } else {
                0
            };
            &&& new_sink matches Some(after) && {
                let message = after@.last().0;
                &&& after@.len() == sink@.len() + 1
                &&& after@.drop_last() == sink@
                &&& forall|rx: crossbeam_channel::Receiver<Vec<u8>>| #[trigger]
                    after.feeds(rx) == sink.feeds(rx)
                &&& match delivery {
                    Delivery::Skipped => false,
                    Delivery::Queued => after@.last().1,
                    Delivery::Refused(back) => !after@.last().1 && back@ == message,
                }
                &&& message.len() == 9
                &&& message[0] == 0x00
                &&& message[8] + 0x100 * message[7] + 0x10000 * message[6] + 0x1000000 * message[5]
                    + 0x100000000 * message[4] + 0x10000000000 * message[3]
                    + 0x1000000000000 * message[2] + 0x100000000000000 * message[1] == time
            }
            &&& new_timeline.last_display_ns == now
            &&& new_timeline.last_mouse_ns == timeline.last_mouse_ns
        }),
{
    let now = nanos % 0x1_0000_0000_0000_0000;
    let time: u64 = if now >= timeline.last_display_ns {
        (now - timeline.last_display_ns) as u64
    } else {
        0
    };
    protocol::lemma_display_message(time);
    assert(new_sink->0@.drop_last() =~= sink@);
    assert(new_sink->0.same_queue(&sink));
}

/// A mouse movement, `nanos` after the start, adds one message to the log: a
/// four, the time since the movement before it, and x and y, each rounded on
/// its own. Display refreshes make no difference to the time.
pub proof fn lemma_mouse_event_message(
    sink: EventSink,
    new_sink: Option<EventSink>,
    timeline: Timeline,
    new_timeline: Timeline,
    nanos: u128,
    x: i32,
    y: i32,
    delivery: Delivery,
)
    requires
        mouse_event_sent(
            Some(sink),
            new_sink,
            timeline,
            new_timeline,
            Some(nanos),
            x as int,
            y as int,
            delivery,
        ),
    ensures
        ({
            let now = nanos % 0x1_0000_0000_0000_0000;
            let time = if now >= timeline.last_mouse_ns {
                now - timeline.last_mouse_ns
            } else {
                0
            };
            &&& new_sink matches Some(after) && {
                let message = after@.last().0;
                &&& after@.len() == sink@.len() + 1
                &&& after@.drop_last() == sink@
                &&& forall|rx: crossbeam_channel::Receiver<Vec<u8>>| #[trigger]
                    after.feeds(rx) == sink.feeds(rx)
                &&& match delivery {
                    Delivery::Skipped => false,
                    Delivery::Queued => after@.last().1,
                    Delivery::Refused(back) => !after@.last().1 && back@ == message,
                }
                &&& message.len() == 17
                &&& message[0] == 0x04
                &&& message[8] + 0x100 * message[7] + 0x10000 * message[6] + 0x1000000 * message[5]
                    + 0x100000000 * message[4] + 0x10000000000 * message[3]
                    + 0x1000000000000 * message[2] + 0x100000000000000 * message[1] == time
                &&& binary32::rounds_to(x as int, message[12] + 0x100 * message[11]
                    + 0x10000 * message[10] + 0x1000000 * message[9])
                &&& binary32::rounds_to(y as int, message[16] + 0x100 * message[15]
                    + 0x10000 * message[14] + 0x1000000 * message[13])
            }
            &&& new_timeline.last_mouse_ns == now
            &&& new_timeline.last_display_ns == timeline.last_display_ns
        }),
{
    let now = nanos % 0x1_0000_0000_0000_0000;
    let time: u64 = if now >= timeline.last_mouse_ns {
        (now - timeline.last_mouse_ns) as u64
    } else {
        0
    };
    protocol::lemma_mouse_message(time, x, y);
    assert(new_sink->0@.drop_last() =~= sink@);
    assert(new_sink->0.same_queue(&sink));
}

/// Two refreshes that follow each other, `a` and `b` nanoseconds after the
/// start: the second is sent with a time of exactly `b - a`.
pub proof fn lemma_display_times_differ(
    sinks: (EventSink, EventSink, EventSink, EventSink),
    timelines: (Timeline, Timeline, Timeline, Timeline),
    a: u128,
    b: u128,
    deliveries: (Delivery, Delivery),
)
    requires
        display_event_sent(
            Some(sinks.0),
            Some(sinks.1),
            timelines.0,
            timelines.1,
            Some(a),
            deliveries.0,
        ),
        timelines.2.last_display_ns == timelines.1.last_display_ns,
        display_event_sent(
            Some(sinks.2),
            Some(sinks.3),
            timelines.2,
            timelines.3,
            Some(b),
            deliveries.1,
        ),
        a <= b < 0x1_0000_0000_0000_0000,
    ensures
        ({
            let message = sinks.3@.last().0;
            message[8] + 0x100 * message[7] + 0x10000 * message[6] + 0x1000000 * message[5]
                + 0x100000000 * message[4] + 0x10000000000 * message[3]
                + 0x1000000000000 * message[2] + 0x100000000000000 * message[1] == b - a
        }),
{
    lemma_display_event_message(
        sinks.0,
        Some(sinks.1),
        timelines.0,
        timelines.1,
        a,
        deliveries.0,
    );
    lemma_display_event_message(
        sinks.2,
        Some(sinks.3),
        timelines.2,
        timelines.3,
        b,
        deliveries.1,
    );
}

/// Two movements that follow each other, `a` and `b` nanoseconds after the
/// start: the second is sent with a time of exactly `b - a`.
pub proof fn lemma_mouse_times_differ(
    sinks: (EventSink, EventSink, EventSink, EventSink),
    timelines: (Timeline, Timeline, Timeline, Timeline),
    a: u128,
    b: u128,
    steps: (i32, i32, i32, i32),
    deliveries: (Delivery, Delivery),
)
    requires
        mouse_event_sent(
            Some(sinks.0),
            Some(sinks.1),
            timelines.0,
            timelines.1,
            Some(a),
            steps.0 as int,
            steps.1 as int,
            deliveries.0,
        ),
        timelines.2.last_mouse_ns == timelines.1.last_mouse_ns,
        mouse_event_sent(
            Some(sinks.2),
            Some(sinks.3),
            timelines.2,
            timelines.3,
            Some(b),
            steps.2 as int,
            steps.3 as int,
            deliveries.1,
        ),
        a <= b < 0x1_0000_0000_0000_0000,
    ensures
        ({
            let message = sinks.3@.last().0;
            message[8] + 0x100 * message[7] + 0x10000 * message[6] + 0x1000000 * message[5]
                + 0x100000000 * message[4] + 0x10000000000 * message[3]
                + 0x1000000000000 * message[2] + 0x100000000000000 * message[1] == b - a
        }),
{
    lemma_mouse_event_message(
        sinks.0,
        Some(sinks.1),
        timelines.0,
        timelines.1,
        a,
        steps.0,
        steps.1,
        deliveries.0,
    );
    lemma_mouse_event_message(
        sinks.2,
        Some(sinks.3),
        timelines.2,
        timelines.3,
        b,
        steps.2,
        steps.3,
        deliveries.1,
    );
}

/// Before the start, nothing is sent and nothing recorded.
pub proof fn lemma_nothing_before_start(
    sink: Option<EventSink>,
    new_sink: Option<EventSink>,
    timeline: Timeline,
    new_timeline: Timeline,
    x: int,
    y: int,
    delivery: Delivery,
)
    requires
        display_event_sent(sink, new_sink, timeline, new_timeline, None, delivery)
            || mouse_event_sent(sink, new_sink, timeline, new_timeline, None, x, y, delivery),
    ensures
        new_sink == sink,
        new_timeline == timeline,
        delivery == Delivery::Skipped,
{
}

/// Without a sink nothing is sent, and the time is recorded all the same.
pub proof fn lemma_recorded_without_sink(
    new_sink: Option<EventSink>,
    timeline: Timeline,
    new_timeline: Timeline,
    nanos: u128,
    x: int,
    y: int,
    delivery: Delivery,
)
    ensures
        display_event_sent(None, new_sink, timeline, new_timeline, Some(nanos), delivery) ==> {
            &&& new_sink is None
            &&& delivery == Delivery::Skipped
            &&& new_timeline.last_display_ns == nanos % 0x1_0000_0000_0000_0000
            &&& new_timeline.last_mouse_ns == timeline.last_mouse_ns
        },
        mouse_event_sent(None, new_sink, timeline, new_timeline, Some(nanos), x, y, delivery) ==> {
            &&& new_sink is None
            &&& delivery == Delivery::Skipped
            &&& new_timeline.last_mouse_ns == nanos % 0x1_0000_0000_0000_0000
            &&& new_timeline.last_display_ns == timeline.last_display_ns
        },
{
}

} // verus!
