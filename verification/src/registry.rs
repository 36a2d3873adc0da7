//! The set of devices that have a monitor.
use crate::bytes::ByteOrder;
use crate::evdev::{self, MonitorAction, MonitorEvent};
use crate::inotify::{ChangeView, DeviceChange};
use vstd::hash_set::StringHashSet;
use vstd::prelude::*;

verus! {

/// The paths of the devices that are being monitored.
pub struct ActiveDevices {
    paths: StringHashSet,
}

/// The set of some strings.
pub open spec fn path_set(strings: Seq<String>) -> Set<Seq<char>> {
    Set::new(|path: Seq<char>| exists|i: int| 0 <= i < strings.len() && #[trigger] strings[i]@ == path)
}

impl View for ActiveDevices {
    type V = Set<Seq<char>>;

    closed spec fn view(&self) -> Set<Seq<char>> {
        self.paths@
    }
}

/// Something that happens to a device after the start.
pub enum DeviceEvent {
    /// The device appeared, and is a mouse or not.
    Appeared(Seq<char>, bool),
    /// The monitor of the device ended.
    Ended(Seq<char>),
}

/// The monitored devices after one more event.
pub open spec fn active_after(active: Set<Seq<char>>, event: DeviceEvent) -> Set<Seq<char>> {
    match event {
        DeviceEvent::Appeared(path, is_mouse) => if is_mouse {
            active.insert(path)
        } else {
            active
        },
        DeviceEvent::Ended(path) => active.remove(path),
    }
}

/// Whether one more event starts a monitor: a mouse appears that has none.
pub open spec fn starts_monitor(active: Set<Seq<char>>, event: DeviceEvent) -> bool {
    match event {
        DeviceEvent::Appeared(path, is_mouse) => is_mouse && !active.contains(path),
        DeviceEvent::Ended(_) => false,
    }
}

/// The monitored devices after the monitor of `path` has come to the action
/// `last`: a monitor that ends takes its own device out, whether or not it
/// failed; one that could not open its device takes out nothing.
pub open spec fn active_after_action(
    active: Set<Seq<char>>,
    path: Seq<char>,
    last: MonitorAction,
) -> Set<Seq<char>> {
    if last == MonitorAction::Finish || last == MonitorAction::Fail {
        active_after(active, DeviceEvent::Ended(path))
    } else {
        active
    }
}

impl ActiveDevices {
    /// No device yet.
    pub fn new() -> (active: ActiveDevices)
        ensures
            active@ == Set::<Seq<char>>::empty(),
    {
        ActiveDevices { paths: StringHashSet::new() }
    }

    /// Whether the device has a monitor.
    pub fn contains(&self, path: &String) -> (found: bool)
        ensures
            found == self@.contains(path@),
    {
        self.paths.contains(path.as_str())
    }

    /// Adds a device; `false` if it was there already.
    pub fn insert(&mut self, path: &String) -> (added: bool)
        ensures
            added == !old(self)@.contains(path@),
            final(self)@ == old(self)@.insert(path@),
    {
        self.paths.insert(path.clone())
    }

    /// Takes a device out; `false` if it was not there.
    pub fn remove(&mut self, path: &String) -> (removed: bool)
        ensures
            removed == old(self)@.contains(path@),
            final(self)@ == active_after(old(self)@, DeviceEvent::Ended(path@)),
    {
        self.paths.remove(path.as_str())
    }

    /// Decides whether a device that has appeared gets a monitor: it has to
    /// be a mouse without one. If so, it counts as monitored from now on.
    pub fn enroll(&mut self, path: &String, is_mouse: bool) -> (monitor: bool)
        ensures
            monitor == starts_monitor(old(self)@, DeviceEvent::Appeared(path@, is_mouse)),
            final(self)@ == active_after(old(self)@, DeviceEvent::Appeared(path@, is_mouse)),
    {
        if is_mouse {
            self.insert(path)
        } else {
            false
        }
    }

    /// Deals with a change in the device directory, where `is_mouse` says
    /// whether a device that appeared is a mouse: returns the path of a device
    /// that is to get a monitor. A device that is gone stays in the set until
    /// its monitor ends.
    pub fn on_change(&mut self, change: &DeviceChange, is_mouse: bool) -> (monitor: Option<String>)
        ensures
            match change@ {
                ChangeView::Appeared(path) => {
                    let event = DeviceEvent::Appeared(path, is_mouse);
                    &&& monitor is Some <==> starts_monitor(old(self)@, event)
                    &&& monitor matches Some(started) ==> started@ == path
                    &&& final(self)@ == active_after(old(self)@, event)
                },
                ChangeView::Removed(_) | ChangeView::Ignored => {
                    &&& monitor is None
                    &&& final(self)@ == old(self)@
                },
            },
    {
        match change {
            DeviceChange::Appeared(path) => if self.enroll(path, is_mouse) {
                Some(path.clone())
            } else {
                None
            },
            DeviceChange::Removed(_) | DeviceChange::Ignored => None,
        }
    }

    /// Deals with the end of the monitor of `path`, which has come to the
    /// action `last`: returns whether the end is to be reported.
    pub fn monitor_ended(&mut self, path: &String, last: MonitorAction) -> (report: bool)
        ensures
            final(self)@ == active_after_action(old(self)@, path@, last),
            report == (last == MonitorAction::Finish || last == MonitorAction::Fail),
    {
        match last {
            MonitorAction::Finish | MonitorAction::Fail => {
                let _ = self.remove(path);
                true
            },
            _ => false,
        }
    }
}

/// A monitor that opened its device takes the path out of the set when it
/// ends, whatever made it end and with or without an error, and leaves every
/// other path alone. One that could not open its device changes nothing, and
/// neither does one that goes on.
pub proof fn lemma_monitor_leaves_set(
    active: Set<Seq<char>>,
    path: Seq<char>,
    other: Seq<char>,
    event: MonitorEvent,
    order: ByteOrder,
)
    ensures
        ({
            let action = evdev::monitor_step(event, order);
            let after = active_after_action(active, path, action);
            &&& evdev::ends(action) && event != MonitorEvent::Opened(false) ==> !after.contains(path)
            &&& !evdev::ends(action) || event == MonitorEvent::Opened(false) ==> after == active
            &&& other != path ==> after.contains(other) == active.contains(other)
        }),
{
}

/// Registers the devices found at the start; each gets a monitor, in order.
pub fn start_monitors(active: &mut ActiveDevices, devices: Vec<String>) -> (monitors: Vec<String>)
    ensures
        final(active)@ == old(active)@.union(path_set(devices@)),
        monitors@ == devices@,
{
    let mut i: usize = 0;
    assert(active@ =~= old(active)@.union(path_set(devices@.take(0))));
    while i < devices.len()
        invariant
            i <= devices@.len(),
            active@ == old(active)@.union(path_set(devices@.take(i as int))),
        decreases devices@.len() - i,
    {
        let _ = active.insert(&devices[i]);
        proof {
            let done = devices@.take(i as int);
            let next = devices@.take(i + 1);
            assert forall|p: Seq<char>| #[trigger]
                path_set(next).contains(p) == path_set(done).insert(devices@[i as int]@).contains(
                    p,
                ) by {
                assert(next[i as int]@ == devices@[i as int]@);
                if path_set(done).contains(p) {
                    let k = choose|k: int| 0 <= k < done.len() && #[trigger] done[k]@ == p;
                    assert(next[k]@ == p);
                }
                if path_set(next).contains(p) {
                    let k = choose|k: int| 0 <= k < next.len() && #[trigger] next[k]@ == p;
                    if k < i {
                        assert(done[k]@ == p);
                    }
                }
            }
            assert(path_set(next) =~= path_set(done).insert(devices@[i as int]@));
            assert(active@ =~= old(active)@.union(path_set(next)));
        }
        i = i + 1;
    }
    assert(devices@.take(i as int) =~= devices@);
    devices
}

/// The monitored devices after some events.
pub open spec fn active_after_all(active: Set<Seq<char>>, events: Seq<DeviceEvent>) -> Set<
    Seq<char>,
>
    decreases events.len(),
{
    if events.len() == 0 {
        active
    } else {
        active_after(active_after_all(active, events.drop_last()), events.last())
    }
}

/// How many monitors of `path` some events leave running, where `running` did
/// before: one more for each time that the device is enrolled, one less for
/// each time that a monitor of it ends.
pub open spec fn running_monitors(
    active: Set<Seq<char>>,
    running: int,
    events: Seq<DeviceEvent>,
    path: Seq<char>,
) -> int
    decreases events.len(),
{
    if events.len() == 0 {
        running
    } else {
        let before = active_after_all(active, events.drop_last());
        running_monitors(active, running, events.drop_last(), path) + match events.last() {
            DeviceEvent::Appeared(p, _) => if p == path && starts_monitor(before, events.last()) {
                1int
            } else {
                0
            },
            DeviceEvent::Ended(p) => if p == path {
                -1
            } else {
                0
            },
        }
    }
}

/// Whether monitors end only where one is running.
pub open spec fn ends_match(active: Set<Seq<char>>, events: Seq<DeviceEvent>) -> bool {
    forall|i: int|
        0 <= i < events.len() ==> (#[trigger] events[i] matches DeviceEvent::Ended(p)
            ==> active_after_all(active, events.take(i)).contains(p))
}

/// Whatever appears and goes, a device has at most one monitor, and it has one
/// exactly while it is in the set.
pub proof fn lemma_one_monitor_per_device(
    active: Set<Seq<char>>,
    events: Seq<DeviceEvent>,
    path: Seq<char>,
)
    requires
        ends_match(active, events),
    ensures
        running_monitors(
            active,
            if active.contains(path) {
                1
            } else {
                0
            },
            events,
            path,
        ) == (if active_after_all(active, events).contains(path) {
            1int
        } else {
            0
        }),
    decreases events.len(),
{
    if events.len() > 0 {
        let head = events.drop_last();
        assert forall|i: int| 0 <= i < head.len() implies (#[trigger] head[i] matches
            DeviceEvent::Ended(p) ==> active_after_all(active, head.take(i)).contains(p)) by {
            assert(events[i] == head[i]);
            assert(events.take(i) =~= head.take(i));
        }
        lemma_one_monitor_per_device(active, head, path);
        let last = events[events.len() - 1];
        assert(events.take(events.len() - 1) =~= head);
    }
}

/// How often some events start a monitor of `path`: each time that the device
/// is enrolled.
pub open spec fn monitors_started(
    active: Set<Seq<char>>,
    events: Seq<DeviceEvent>,
    path: Seq<char>,
) -> nat
    decreases events.len(),
{
    if events.len() == 0 {
        0
    } else {
        let before = active_after_all(active, events.drop_last());
        monitors_started(active, events.drop_last(), path) + (if events.last()
            == DeviceEvent::Appeared(path, true) && starts_monitor(before, events.last()) {
            1nat
        } else {
            0
        })
    }
}

/// How often some events take `path` out of the set.
pub open spec fn times_taken_out(
    active: Set<Seq<char>>,
    events: Seq<DeviceEvent>,
    path: Seq<char>,
) -> nat
    decreases events.len(),
{
    if events.len() == 0 {
        0
    } else {
        let before = active_after_all(active, events.drop_last());
        times_taken_out(active, events.drop_last(), path) + (if events.last()
            == DeviceEvent::Ended(path) && before.contains(path) {
            1nat
        } else {
            0
        })
    }
}

/// Whatever appears and goes, in whatever order, the monitors of a device that
/// are started are one more at most than the times that it was taken out of
/// the set, and none more if it was in the set before.
pub proof fn lemma_monitors_started_bound(
    active: Set<Seq<char>>,
    events: Seq<DeviceEvent>,
    path: Seq<char>,
)
    ensures
        monitors_started(active, events, path) <= times_taken_out(active, events, path) + (
        if active.contains(path) {
            0nat
        } else {
            1
        }),
{
    lemma_monitors_started(active, events, path);
}

/// The monitors started and the times taken out differ by what changed in the
/// set.
proof fn lemma_monitors_started(active: Set<Seq<char>>, events: Seq<DeviceEvent>, path: Seq<char>)
    ensures
        monitors_started(active, events, path) - times_taken_out(active, events, path) == (
        if active_after_all(active, events).contains(path) {
            1int
        } else {
            0
        }) - (if active.contains(path) {
            1int
        } else {
            0
        }),
    decreases events.len(),
{
    if events.len() > 0 {
        lemma_monitors_started(active, events.drop_last(), path);
    }
}

/// A device that appears is in the set afterwards exactly if it was or is a
/// mouse, whatever its path; it gets a monitor exactly if it is a mouse that
/// was not in the set. The end of a monitor takes its own device out and
/// starts none. No other path is touched.
pub proof fn lemma_set_changes(
    active: Set<Seq<char>>,
    path: Seq<char>,
    other: Seq<char>,
    is_mouse: bool,
)
    ensures
        ({
            let appeared = DeviceEvent::Appeared(path, is_mouse);
            let ended = DeviceEvent::Ended(path);
            &&& active_after(active, appeared).contains(path) <==> active.contains(path) || is_mouse
            &&& starts_monitor(active, appeared) <==> is_mouse && !active.contains(path)
            &&& !active_after(active, ended).contains(path)
            &&& !starts_monitor(active, ended)
            &&& other != path ==> {
                &&& active_after(active, appeared).contains(other) <==> active.contains(other)
                &&& active_after(active, ended).contains(other) <==> active.contains(other)
            }
        }),
{
}

/// The set of some paths holds each of them and nothing else.
pub proof fn lemma_path_set(paths: Seq<String>, path: Seq<char>)
    ensures
        forall|i: int| 0 <= i < paths.len() ==> path_set(paths).contains(#[trigger] paths[i]@),
        path_set(paths).contains(path) ==> exists|i: int|
            0 <= i < paths.len() && #[trigger] paths[i]@ == path,
{
}

/// The set loses a device exactly when its monitor finishes or fails.
pub proof fn lemma_set_after_action(active: Set<Seq<char>>, path: Seq<char>, x: i32, y: i32)
    ensures
        active_after_action(active, path, MonitorAction::Finish) == active.remove(path),
        active_after_action(active, path, MonitorAction::Fail) == active.remove(path),
        active_after_action(active, path, MonitorAction::Abandon) == active,
        active_after_action(active, path, MonitorAction::CheckRunning) == active,
        active_after_action(active, path, MonitorAction::Select) == active,
        active_after_action(active, path, MonitorAction::Read) == active,
        active_after_action(active, path, MonitorAction::Report(x, y)) == active,
{
}

} // verus!
