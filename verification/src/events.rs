//! High-level events, the subscribable event kinds clients may register
//! for, and the in-process event bus: publishing never blocks, and a
//! subscriber whose buffer is full loses its oldest frame to the new one.
use vstd::prelude::*;

use crate::text::{ascii_bytes, token_is};

verus! {

/// An event the window manager emits; payloads carry the subject
/// container's identifier.
#[derive(Clone, Copy, PartialEq, Eq, Structural, Debug)]
pub enum WmEvent {
    BindingModesChanged,
    FocusChanged { focused_id: u128 },
    FocusedContainerMoved { id: u128 },
    MonitorAdded { id: u128 },
    MonitorUpdated { id: u128 },
    MonitorRemoved { id: u128 },
    TilingDirectionChanged { id: u128 },
    UserConfigChanged,
    WindowManaged { id: u128 },
    WindowUnmanaged { id: u128 },
    WorkspaceActivated { id: u128 },
    WorkspaceDeactivated { id: u128 },
    WorkspaceMoved { id: u128 },
}

/// The closed set of event kinds a client may subscribe to.
#[derive(Clone, Copy, PartialEq, Eq, Structural, Debug)]
pub enum SubscribableEvent {
    BindingModesChanged,
    FocusChanged,
    FocusedContainerMoved,
    MonitorAdded,
    MonitorUpdated,
    MonitorRemoved,
    TilingDirectionChanged,
    UserConfigChanged,
    WindowManaged,
    WindowUnmanaged,
    WorkspaceActivated,
    WorkspaceDeactivated,
    WorkspaceMoved,
}

/// The subscribable kind of an event.
pub open spec fn spec_to_subscribable(e: WmEvent) -> SubscribableEvent {
    match e {
        WmEvent::BindingModesChanged => SubscribableEvent::BindingModesChanged,
        WmEvent::FocusChanged { .. } => SubscribableEvent::FocusChanged,
        WmEvent::FocusedContainerMoved { .. } => SubscribableEvent::FocusedContainerMoved,
        WmEvent::MonitorAdded { .. } => SubscribableEvent::MonitorAdded,
        WmEvent::MonitorUpdated { .. } => SubscribableEvent::MonitorUpdated,
        WmEvent::MonitorRemoved { .. } => SubscribableEvent::MonitorRemoved,
        WmEvent::TilingDirectionChanged { .. } => SubscribableEvent::TilingDirectionChanged,
        WmEvent::UserConfigChanged => SubscribableEvent::UserConfigChanged,
        WmEvent::WindowManaged { .. } => SubscribableEvent::WindowManaged,
        WmEvent::WindowUnmanaged { .. } => SubscribableEvent::WindowUnmanaged,
        WmEvent::WorkspaceActivated { .. } => SubscribableEvent::WorkspaceActivated,
        WmEvent::WorkspaceDeactivated { .. } => SubscribableEvent::WorkspaceDeactivated,
        WmEvent::WorkspaceMoved { .. } => SubscribableEvent::WorkspaceMoved,
    }
}

/// Maps an event to the subscribable kind it is published under.
pub fn to_subscribable(e: &WmEvent) -> (r: SubscribableEvent)
    ensures
        r == spec_to_subscribable(*e),
{
    match e {
        WmEvent::BindingModesChanged => SubscribableEvent::BindingModesChanged,
        WmEvent::FocusChanged { .. } => SubscribableEvent::FocusChanged,
        WmEvent::FocusedContainerMoved { .. } => SubscribableEvent::FocusedContainerMoved,
        WmEvent::MonitorAdded { .. } => SubscribableEvent::MonitorAdded,
        WmEvent::MonitorUpdated { .. } => SubscribableEvent::MonitorUpdated,
        WmEvent::MonitorRemoved { .. } => SubscribableEvent::MonitorRemoved,
        WmEvent::TilingDirectionChanged { .. } => SubscribableEvent::TilingDirectionChanged,
        WmEvent::UserConfigChanged => SubscribableEvent::UserConfigChanged,
        WmEvent::WindowManaged { .. } => SubscribableEvent::WindowManaged,
        WmEvent::WindowUnmanaged { .. } => SubscribableEvent::WindowUnmanaged,
        WmEvent::WorkspaceActivated { .. } => SubscribableEvent::WorkspaceActivated,
        WmEvent::WorkspaceDeactivated { .. } => SubscribableEvent::WorkspaceDeactivated,
        WmEvent::WorkspaceMoved { .. } => SubscribableEvent::WorkspaceMoved,
    }
}

/// Wire name of a subscribable event kind.
pub open spec fn spec_event_name(e: SubscribableEvent) -> Seq<char> {
    match e {
        SubscribableEvent::BindingModesChanged => "binding_modes_changed"@,
        SubscribableEvent::FocusChanged => "focus_changed"@,
        SubscribableEvent::FocusedContainerMoved => "focused_container_moved"@,
        SubscribableEvent::MonitorAdded => "monitor_added"@,
        SubscribableEvent::MonitorUpdated => "monitor_updated"@,
        SubscribableEvent::MonitorRemoved => "monitor_removed"@,
        SubscribableEvent::TilingDirectionChanged => "tiling_direction_changed"@,
        SubscribableEvent::UserConfigChanged => "user_config_changed"@,
        SubscribableEvent::WindowManaged => "window_managed"@,
        SubscribableEvent::WindowUnmanaged => "window_unmanaged"@,
        SubscribableEvent::WorkspaceActivated => "workspace_activated"@,
        SubscribableEvent::WorkspaceDeactivated => "workspace_deactivated"@,
        SubscribableEvent::WorkspaceMoved => "workspace_moved"@,
    }
}

/// Which subscribable kind a name token denotes, if any.
pub open spec fn spec_parse_event(t: Seq<u8>) -> Option<SubscribableEvent> {
    if t == ascii_bytes(spec_event_name(SubscribableEvent::BindingModesChanged)) {
        Some(SubscribableEvent::BindingModesChanged)
    } else if t == ascii_bytes(spec_event_name(SubscribableEvent::FocusChanged)) {
        Some(SubscribableEvent::FocusChanged)
    } else if t == ascii_bytes(spec_event_name(SubscribableEvent::FocusedContainerMoved)) {
        Some(SubscribableEvent::FocusedContainerMoved)
    } else if t == ascii_bytes(spec_event_name(SubscribableEvent::MonitorAdded)) {
        Some(SubscribableEvent::MonitorAdded)
    } else if t == ascii_bytes(spec_event_name(SubscribableEvent::MonitorUpdated)) {
        Some(SubscribableEvent::MonitorUpdated)
    } else if t == ascii_bytes(spec_event_name(SubscribableEvent::MonitorRemoved)) {
        Some(SubscribableEvent::MonitorRemoved)
    } else if t == ascii_bytes(spec_event_name(SubscribableEvent::TilingDirectionChanged)) {
        Some(SubscribableEvent::TilingDirectionChanged)
    } else if t == ascii_bytes(spec_event_name(SubscribableEvent::UserConfigChanged)) {
        Some(SubscribableEvent::UserConfigChanged)
    } else if t == ascii_bytes(spec_event_name(SubscribableEvent::WindowManaged)) {
        Some(SubscribableEvent::WindowManaged)
    } else if t == ascii_bytes(spec_event_name(SubscribableEvent::WindowUnmanaged)) {
        Some(SubscribableEvent::WindowUnmanaged)
    } else if t == ascii_bytes(spec_event_name(SubscribableEvent::WorkspaceActivated)) {
        Some(SubscribableEvent::WorkspaceActivated)
    } else if t == ascii_bytes(spec_event_name(SubscribableEvent::WorkspaceDeactivated)) {
        Some(SubscribableEvent::WorkspaceDeactivated)
    } else if t == ascii_bytes(spec_event_name(SubscribableEvent::WorkspaceMoved)) {
        Some(SubscribableEvent::WorkspaceMoved)
    } else {
        None
    }
}

/// Parses one event name, as sent in `subscribe --events`.
pub fn parse_event_name(t: &Vec<u8>) -> (r: Option<SubscribableEvent>)
    ensures
        r == spec_parse_event(t@),
{
    proof {
        reveal_strlit("binding_modes_changed");
        reveal_strlit("focus_changed");
        reveal_strlit("focused_container_moved");
        reveal_strlit("monitor_added");
        reveal_strlit("monitor_updated");
        reveal_strlit("monitor_removed");
        reveal_strlit("tiling_direction_changed");
        reveal_strlit("user_config_changed");
        reveal_strlit("window_managed");
        reveal_strlit("window_unmanaged");
        reveal_strlit("workspace_activated");
        reveal_strlit("workspace_deactivated");
        reveal_strlit("workspace_moved");
    }
    if token_is(t, "binding_modes_changed") {
        Some(SubscribableEvent::BindingModesChanged)
    } else if token_is(t, "focus_changed") {
        Some(SubscribableEvent::FocusChanged)
    } else if token_is(t, "focused_container_moved") {
        Some(SubscribableEvent::FocusedContainerMoved)
    } else if token_is(t, "monitor_added") {
        Some(SubscribableEvent::MonitorAdded)
    } else if token_is(t, "monitor_updated") {
        Some(SubscribableEvent::MonitorUpdated)
    } else if token_is(t, "monitor_removed") {
        Some(SubscribableEvent::MonitorRemoved)
    } else if token_is(t, "tiling_direction_changed") {
        Some(SubscribableEvent::TilingDirectionChanged)
    } else if token_is(t, "user_config_changed") {
        Some(SubscribableEvent::UserConfigChanged)
    } else if token_is(t, "window_managed") {
        Some(SubscribableEvent::WindowManaged)
    } else if token_is(t, "window_unmanaged") {
        Some(SubscribableEvent::WindowUnmanaged)
    } else if token_is(t, "workspace_activated") {
        Some(SubscribableEvent::WorkspaceActivated)
    } else if token_is(t, "workspace_deactivated") {
        Some(SubscribableEvent::WorkspaceDeactivated)
    } else if token_is(t, "workspace_moved") {
        Some(SubscribableEvent::WorkspaceMoved)
    } else {
        None
    }
}

/// One registered subscriber of the bus.
pub struct Subscriber {
    /// Subscription identifier handed to the client.
    pub id: u128,
    /// Event kinds this subscriber asked for.
    pub kinds: Vec<SubscribableEvent>,
    /// Undelivered events, oldest first.
    pub buffer: Vec<WmEvent>,
    /// Buffer slots; a publish to a full buffer is dropped.
    pub capacity: usize,
}

/// The process-wide event bus.
pub struct EventBus {
    pub subscribers: Vec<Subscriber>,
}

pub open spec fn spec_wants(s: Subscriber, e: WmEvent) -> bool {
    s.kinds@.contains(spec_to_subscribable(e))
}

impl EventBus {
    pub fn new() -> (r: EventBus)
        ensures
            r.subscribers@.len() == 0,
    {
        EventBus { subscribers: Vec::new() }
    }

    /// Registers a subscriber; the caller supplies the fresh identifier.
    pub fn subscribe(&mut self, id: u128, kinds: Vec<SubscribableEvent>, capacity: usize)
        ensures
            final (self).subscribers@.len() == old(self).subscribers@.len() + 1,
            final (self).subscribers@.last().id == id,
            final (self).subscribers@.last().kinds == kinds,
            final (self).subscribers@.last().buffer@.len() == 0,
            final (self).subscribers@.last().capacity == capacity,
            final (self).subscribers@.drop_last() == old(self).subscribers@,
    {
        self.subscribers.push(Subscriber { id, kinds, buffer: Vec::new(), capacity });
    }

    /// Removes every subscription of a disconnected client.
    pub fn cancel(&mut self, id: u128)
        ensures
            forall|i: int|
                0 <= i < final (self).subscribers@.len() ==> final (self).subscribers@[i].id != id,
    {
        let mut kept: Vec<Subscriber> = Vec::new();
        loop
            invariant
                forall|i: int| 0 <= i < kept@.len() ==> kept@[i].id != id,
            decreases self.subscribers.len(),
        {
            if self.subscribers.len() == 0 {
                break;
            }
            let s = self.subscribers.remove(0);
            if s.id != id {
                kept.push(s);
            }
        }
        self.subscribers = kept;
    }

    /// Publishes one event: every interested subscriber gets it appended,
    /// a full buffer losing its oldest frame to make room; uninterested
    /// subscribers are untouched; nothing blocks.
    pub fn publish(&mut self, e: WmEvent)
        ensures
            spec_published(*old(self), *final (self), e),
            final (self).subscribers@.len() == old(self).subscribers@.len(),
            forall|i: int|
                #![trigger old(self).subscribers@[i]]
                0 <= i < old(self).subscribers@.len() ==> {
                    let s = old(self).subscribers@[i];
                    let s2 = final (self).subscribers@[i];
                    &&& s2.id == s.id
                    &&& s2.kinds == s.kinds
                    &&& s2.capacity == s.capacity
                    &&& (if spec_wants(s, e) && s.buffer@.len() < s.capacity {
                        s2.buffer@ == s.buffer@.push(e)
                    } else if spec_wants(s, e) && s.capacity > 0 {
                        s2.buffer@ == s.buffer@.drop_first().push(e)
                    } else {
                        s2.buffer@ == s.buffer@
                    })
                },
    {
        let n = self.subscribers.len();
        let mut i: usize = 0;
        while i < n
            invariant
                n == self.subscribers@.len(),
                n == old(self).subscribers@.len(),
                i <= n,
                forall|j: int| i <= j < n ==> self.subscribers@[j] == old(self).subscribers@[j],
                forall|j: int|
                    #![trigger old(self).subscribers@[j]]
                    0 <= j < i ==> {
                        let s = old(self).subscribers@[j];
                        let s2 = self.subscribers@[j];
                        &&& s2.id == s.id
                        &&& s2.kinds == s.kinds
                        &&& s2.capacity == s.capacity
                        &&& (if spec_wants(s, e) && s.buffer@.len() < s.capacity {
                            s2.buffer@ == s.buffer@.push(e)
                        } else if spec_wants(s, e) && s.capacity > 0 {
                            s2.buffer@ == s.buffer@.drop_first().push(e)
                        } else {
                            s2.buffer@ == s.buffer@
                        })
                    },
            decreases n - i,
        {
            let wants = subscriber_wants(&self.subscribers[i], &e);
            if wants && self.subscribers[i].capacity > 0 {
                let ghost prev = self.subscribers@;
                let mut s = self.subscribers.remove(i);
                let ghost b0 = s.buffer@;
                if s.buffer.len() >= s.capacity {
                    // the oldest frame makes room for the newest
                    s.buffer.remove(0);
                    proof {
                        assert(s.buffer@ =~= b0.drop_first());
                    }
                }
                s.buffer.push(e);
                let ghost s2g = s;
                self.subscribers.insert(i, s);
                proof {
                    assert(self.subscribers@ =~= prev.update(i as int, s2g));
                    assert(forall|j: int| 0 <= j < n && j != i ==> self.subscribers@[j] == prev[j]);
                }
            }
            i = i + 1;
        }
    }
}

/// Whether a subscriber asked for this event's kind.
pub fn subscriber_wants(s: &Subscriber, e: &WmEvent) -> (r: bool)
    ensures
        r == spec_wants(*s, *e),
{
    let kind = to_subscribable(e);
    let mut i: usize = 0;
    while i < s.kinds.len()
        invariant
            i <= s.kinds@.len(),
            kind == spec_to_subscribable(*e),
            forall|j: int| 0 <= j < i ==> s.kinds@[j] != spec_to_subscribable(*e),
        decreases s.kinds@.len() - i,
    {
        if kind_matches(s.kinds[i], kind) {
            proof {
                assert(s.kinds@.contains(spec_to_subscribable(*e)));
            }
            return true;
        }
        i = i + 1;
    }
    proof {
        assert(!s.kinds@.contains(spec_to_subscribable(*e)));
    }
    false
}

/// Executable equality of subscribable kinds.
pub fn kind_matches(a: SubscribableEvent, b: SubscribableEvent) -> (r: bool)
    ensures
        r == (a == b),
{
    a == b
}

/// What one publish does to a bus: same subscribers, each interested one
/// with the event appended (its oldest frame dropped first when full),
/// every other one untouched.
pub open spec fn spec_published(pre: EventBus, post: EventBus, e: WmEvent) -> bool {
    &&& post.subscribers@.len() == pre.subscribers@.len()
    &&& (forall|i: int|
        #![trigger pre.subscribers@[i]]
        0 <= i < pre.subscribers@.len() ==> {
            let s = pre.subscribers@[i];
            let s2 = post.subscribers@[i];
            &&& s2.id == s.id
            &&& s2.kinds == s.kinds
            &&& s2.capacity == s.capacity
            &&& (if spec_wants(s, e) && s.buffer@.len() < s.capacity {
                s2.buffer@ == s.buffer@.push(e)
            } else if spec_wants(s, e) && s.capacity > 0 {
                s2.buffer@ == s.buffer@.drop_first().push(e)
            } else {
                s2.buffer@ == s.buffer@
            })
        })
}

} // verus!
