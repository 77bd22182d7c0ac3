//! The pure heart of the IPC server: the inbound command grammar, the
//! outbound message values, and the processing of one client message
//! against the window-manager state. Sockets, framing and JSON encoding
//! live outside the library; this module works on plain bytes and values.
use vstd::prelude::*;

use crate::commands::{focus_rel, set_focused_descendant, WmError};
use crate::events::{
    spec_parse_event, spec_published, parse_event_name, EventBus, SubscribableEvent, WmEvent,
};
use crate::text::{ascii_bytes, spec_split, spec_tokenize, split_bytes, token_is, tokenize};
use crate::tree::{
    spec_contains, spec_focused_leaf, spec_ids_of_kind, tree_wf, Container, ContainerKind,
};

verus! {

/// A read-only query.
#[derive(Clone, Copy, PartialEq, Eq, Structural, Debug)]
pub enum QueryCommand {
    Windows,
    Workspaces,
    Monitors,
    BindingModes,
    Focused,
}

/// An operation applied to the container a `cmd` message names.
#[derive(Clone, Copy, PartialEq, Eq, Structural, Debug)]
pub enum CmdOp {
    Focus,
}

/// A parsed client message.
pub enum AppCommand {
    Query(QueryCommand),
    Cmd { subject_id: u128, op: CmdOp },
    Subscribe { events: Vec<SubscribableEvent> },
}

/// The 128-bit value a byte string denotes as a UUID, if any.
pub uninterp spec fn spec_uuid_parse(s: Seq<u8>) -> Option<u128>;

/// Relies on uuid::Uuid::parse_str: whether a string denotes a UUID, and
/// which 128-bit value it denotes, depend on its bytes alone.
#[verifier::external_body]
fn parse_uuid_bytes(t: &Vec<u8>) -> (r: Option<u128>)
    ensures
        r == spec_uuid_parse(t@),
{
    match std::str::from_utf8(t.as_slice()) {
        Ok(s) => uuid::Uuid::parse_str(s).ok().map(|u| u.as_u128()),
        Err(_) => None,
    }
}

/// Relies on uuid::Uuid::new_v4: a freshly drawn random identifier.
/// Nothing can be promised of its value.
#[verifier::external_body]
fn fresh_subscription_id() -> u128 {
    uuid::Uuid::new_v4().as_u128()
}

/// The subscribable kinds a comma-separated list of names denotes; any
/// unknown name spoils the whole list.
pub open spec fn spec_parse_event_list(t: Seq<u8>) -> Option<Seq<SubscribableEvent>> {
    let parts = spec_split(t, 44);
    if parts.len() >= 1 && (forall|i: int|
        0 <= i < parts.len() ==> spec_parse_event(#[trigger] parts[i]) is Some) {
        Some(Seq::new(parts.len(), |i: int| spec_parse_event(parts[i]).unwrap()))
    } else {
        None
    }
}

/// Parses a comma-separated event-name list.
pub fn parse_event_list(t: &Vec<u8>) -> (r: Option<Vec<SubscribableEvent>>)
    ensures
        match r {
            Some(v) => spec_parse_event_list(t@) == Some(v@),
            None => spec_parse_event_list(t@) is None,
        },
{
    let parts = split_bytes(t, 44);
    let ghost pv = parts@.map_values(|p: Vec<u8>| p@);
    proof {
        assert(spec_split(t@, 44) == pv);
    }
    if parts.len() == 0 {
        return None;
    }
    let mut out: Vec<SubscribableEvent> = Vec::new();
    let mut i: usize = 0;
    while i < parts.len()
        invariant
            i <= parts@.len(),
            pv == parts@.map_values(|p: Vec<u8>| p@),
            spec_split(t@, 44) == pv,
            pv.len() == parts@.len(),
            forall|j: int| 0 <= j < i ==> spec_parse_event(#[trigger] pv[j]) is Some,
            out@.len() == i,
            forall|j: int| 0 <= j < i ==> #[trigger] out@[j] == spec_parse_event(pv[j]).unwrap(),
        decreases parts@.len() - i,
    {
        proof {
            assert(pv[i as int] == parts@[i as int]@);
        }
        match parse_event_name(&parts[i]) {
            Some(e) => {
                out.push(e);
            },
            None => {
                proof {
                    assert(spec_split(t@, 44) == pv);
                    assert(spec_parse_event(pv[i as int]) is None);
                    assert(!(forall|j: int|
                        0 <= j < pv.len() ==> spec_parse_event(#[trigger] pv[j]) is Some));
                    assert(spec_parse_event_list(t@) is None);
                }
                return None;
            },
        }
        i = i + 1;
    }
    proof {
        assert(spec_parse_event_list(t@) == Some(
            Seq::new(pv.len(), |j: int| spec_parse_event(pv[j]).unwrap()),
        ));
        assert(out@ =~= Seq::new(pv.len(), |j: int| spec_parse_event(pv[j]).unwrap()));
    }
    Some(out)
}

/// The wire name of a query kind.
pub open spec fn spec_query_name(q: QueryCommand) -> Seq<char> {
    match q {
        QueryCommand::Windows => "windows"@,
        QueryCommand::Workspaces => "workspaces"@,
        QueryCommand::Monitors => "monitors"@,
        QueryCommand::BindingModes => "binding-modes"@,
        QueryCommand::Focused => "focused"@,
    }
}

/// Shape of an accepted query message for one query kind.
pub open spec fn query_shape(ts: Seq<Seq<u8>>, q: QueryCommand) -> bool {
    ts.len() == 2 && ts[0] == ascii_bytes("query"@) && ts[1] == ascii_bytes(spec_query_name(q))
}

/// Shape of an accepted focus command message.
pub open spec fn cmd_shape(ts: Seq<Seq<u8>>) -> bool {
    ts.len() == 4 && ts[0] == ascii_bytes("cmd"@) && ts[1] == ascii_bytes("--id"@) && ts[3]
        == ascii_bytes("focus"@) && spec_uuid_parse(ts[2]) is Some
}

/// Shape of an accepted subscribe message.
pub open spec fn subscribe_shape(ts: Seq<Seq<u8>>) -> bool {
    ts.len() == 3 && ts[0] == ascii_bytes("subscribe"@) && ts[1] == ascii_bytes("--events"@)
        && spec_parse_event_list(ts[2]) is Some
}

/// Identifiers of every window container, grouped by display state.
pub open spec fn spec_window_ids(root: Container) -> Seq<u128> {
    spec_ids_of_kind(root, ContainerKind::TilingWindow) + spec_ids_of_kind(
        root,
        ContainerKind::FloatingWindow,
    ) + spec_ids_of_kind(root, ContainerKind::FullscreenWindow) + spec_ids_of_kind(
        root,
        ContainerKind::MinimizedWindow,
    )
}

/// The inbound grammar over whitespace tokens:
/// `query (windows|workspaces|monitors|binding-modes|focused)`,
/// `cmd --id <uuid> focus`, and
/// `subscribe --events <name>[,<name>...]`. Anything else is rejected.
pub open spec fn spec_parse_ok(ts: Seq<Seq<u8>>) -> bool {
    ||| (exists|q: QueryCommand| #[trigger] query_shape(ts, q))
    ||| cmd_shape(ts)
    ||| subscribe_shape(ts)
}

/// What a parse outcome means: rejection means the grammar does not accept
/// the tokens; acceptance pins the parsed value to the tokens.
pub open spec fn matches_parse(ts: Seq<Seq<u8>>, r: Option<AppCommand>) -> bool {
    match r {
        None => !spec_parse_ok(ts),
        Some(AppCommand::Query(q)) => ts.len() == 2 && ts[0] == ascii_bytes("query"@) && ts[1]
            == ascii_bytes(spec_query_name(q)),
        Some(AppCommand::Cmd { subject_id, op }) => ts.len() == 4 && ts[0] == ascii_bytes("cmd"@)
            && ts[1] == ascii_bytes("--id"@) && ts[3] == ascii_bytes("focus"@) && spec_uuid_parse(
            ts[2],
        ) == Some(subject_id) && op == CmdOp::Focus,
        Some(AppCommand::Subscribe { events }) => ts.len() == 3 && ts[0] == ascii_bytes(
            "subscribe"@,
        ) && ts[1] == ascii_bytes("--events"@) && spec_parse_event_list(ts[2]) == Some(events@),
    }
}

/// Parses one tokenized client message.
pub fn parse_command(ts: &Vec<Vec<u8>>) -> (r: Option<AppCommand>)
    ensures
        matches_parse(ts@.map_values(|t: Vec<u8>| t@), r),
{
    proof {
        reveal_strlit("query");
        reveal_strlit("windows");
        reveal_strlit("workspaces");
        reveal_strlit("monitors");
        reveal_strlit("binding-modes");
        reveal_strlit("focused");
        reveal_strlit("cmd");
        reveal_strlit("--id");
        reveal_strlit("focus");
        reveal_strlit("subscribe");
        reveal_strlit("--events");
    }
    let ghost tv = ts@.map_values(|t: Vec<u8>| t@);
    proof {
        assert(forall|j: int| 0 <= j < ts@.len() ==> #[trigger] tv[j] == ts@[j]@);
    }
    if ts.len() == 2 && token_is(&ts[0], "query") {
        if token_is(&ts[1], "windows") {
            Some(AppCommand::Query(QueryCommand::Windows))
        } else if token_is(&ts[1], "workspaces") {
            Some(AppCommand::Query(QueryCommand::Workspaces))
        } else if token_is(&ts[1], "monitors") {
            Some(AppCommand::Query(QueryCommand::Monitors))
        } else if token_is(&ts[1], "binding-modes") {
            Some(AppCommand::Query(QueryCommand::BindingModes))
        } else if token_is(&ts[1], "focused") {
            Some(AppCommand::Query(QueryCommand::Focused))
        } else {
            None
        }
    } else if ts.len() == 4 && token_is(&ts[0], "cmd") && token_is(&ts[1], "--id") && token_is(
        &ts[3],
        "focus",
    ) {
        match parse_uuid_bytes(&ts[2]) {
            Some(id) => Some(AppCommand::Cmd { subject_id: id, op: CmdOp::Focus }),
            None => None,
        }
    } else if ts.len() == 3 && token_is(&ts[0], "subscribe") && token_is(&ts[1], "--events") {
        match parse_event_list(&ts[2]) {
            Some(events) => Some(AppCommand::Subscribe { events }),
            None => None,
        }
    } else {
        None
    }
}

/// Data of a successful client response, tagged by query kind; containers
/// are reported by identifier.
pub enum ClientResponseData {
    BindingModes(Vec<String>),
    Command(CommandData),
    EventSubscription(EventSubscriptionData),
    Focused(u128),
    Monitors(Vec<u128>),
    Windows(Vec<u128>),
    Workspaces(Vec<u128>),
}

#[derive(Clone, Copy, PartialEq, Eq, Structural, Debug)]
pub struct CommandData {
    pub subject_container_id: u128,
}

#[derive(Clone, Copy, PartialEq, Eq, Structural, Debug)]
pub struct EventSubscriptionData {
    pub subscription_id: u128,
}

/// Why a client message was refused.
#[derive(Clone, Copy, PartialEq, Eq, Structural, Debug)]
pub enum IpcError {
    /// The message did not parse under the command grammar.
    Parse,
    /// The command was refused by the tree.
    Command(WmError),
}

/// The response to exactly one client message.
pub struct ClientResponseMessage {
    /// The original client message, echoed back.
    pub client_message: Vec<u8>,
    pub data: Option<ClientResponseData>,
    pub error: Option<IpcError>,
    pub success: bool,
}

impl ClientResponseMessage {
    /// The tag under which this message is serialized.
    pub fn message_type(&self) -> (r: &'static str)
        ensures
            r@ == "client_response"@,
    {
        "client_response"
    }
}

/// One frame of an event subscription.
pub struct EventSubscriptionMessage {
    pub subscription_id: u128,
    pub data: Option<WmEvent>,
    pub error: Option<IpcError>,
    pub success: bool,
}

impl EventSubscriptionMessage {
    /// The tag under which this message is serialized.
    pub fn message_type(&self) -> (r: &'static str)
        ensures
            r@ == "event_subscription"@,
    {
        "event_subscription"
    }
}

/// The state the single window-manager task owns.
pub struct WmState {
    /// The container tree, rooted at the singleton root container.
    pub root: Container,
    /// Next never-used container identifier.
    pub next_id: u128,
    /// Names of the configured binding modes.
    pub binding_modes: Vec<String>,
}

pub open spec fn wm_wf(s: WmState) -> bool {
    tree_wf(s.root)
}

/// Distinct query kinds have distinct wire names.
proof fn lemma_query_name_injective(q1: QueryCommand, q2: QueryCommand)
    requires
        ascii_bytes(spec_query_name(q1)) == ascii_bytes(spec_query_name(q2)),
    ensures
        q1 == q2,
{
    reveal_strlit("windows");
    reveal_strlit("workspaces");
    reveal_strlit("monitors");
    reveal_strlit("binding-modes");
    reveal_strlit("focused");
    if q1 != q2 {
        let a = ascii_bytes(spec_query_name(q1));
        let b = ascii_bytes(spec_query_name(q2));
        if a.len() == b.len() {
            assert(a[0] != b[0]);
        }
    }
}

/// Processes one client message: parses it, runs the query or command or
/// registers the subscription, and returns the state with the one response
/// owed for the message. Every accepted query and subscription succeeds
/// with its pinned data; a focus command succeeds exactly when the tree
/// holds the target. A parse failure or refused command reports
/// `success == false` with the error, and leaves state and bus unchanged.
pub fn process_message(state: WmState, bus: &mut EventBus, msg: Vec<u8>) -> (r: (
    WmState,
    ClientResponseMessage,
))
    requires
        wm_wf(state),
    ensures
        wm_wf(r.0),
        r.1.client_message@ == msg@,
        r.1.success == (r.1.error is None),
        r.1.success == (r.1.data is Some),
        !r.1.success ==> r.0 == state && *final (bus) == *old(bus),
        !spec_parse_ok(spec_tokenize(msg@)) ==> r.1.error == Some(IpcError::Parse),
        r.0.next_id == state.next_id,
        r.0.binding_modes == state.binding_modes,
        query_shape(spec_tokenize(msg@), QueryCommand::Workspaces) ==> r.1.success && r.0 == state
            && *final (bus) == *old(bus) && (r.1.data matches Some(
            ClientResponseData::Workspaces(v),
        ) && v@ == spec_ids_of_kind(state.root, ContainerKind::Workspace)),
        query_shape(spec_tokenize(msg@), QueryCommand::Monitors) ==> r.1.success && r.0 == state
            && *final (bus) == *old(bus) && (r.1.data matches Some(ClientResponseData::Monitors(v))
            && v@ == spec_ids_of_kind(state.root, ContainerKind::Monitor)),
        query_shape(spec_tokenize(msg@), QueryCommand::Windows) ==> r.1.success && r.0 == state
            && *final (bus) == *old(bus) && (r.1.data matches Some(ClientResponseData::Windows(v))
            && v@ == spec_window_ids(state.root)),
        query_shape(spec_tokenize(msg@), QueryCommand::BindingModes) ==> r.1.success && r.0
            == state && *final (bus) == *old(bus) && (r.1.data matches Some(
            ClientResponseData::BindingModes(v),
        ) && v@.map_values(|s: String| s@) == state.binding_modes@.map_values(|s: String| s@)),
        query_shape(spec_tokenize(msg@), QueryCommand::Focused) ==> r.1.success && r.0 == state
            && *final (bus) == *old(bus) && r.1.data == Some(
            ClientResponseData::Focused(spec_focused_leaf(state.root)),
        ),
        cmd_shape(spec_tokenize(msg@)) ==> {
            let id = spec_uuid_parse(spec_tokenize(msg@)[2]).unwrap();
            &&& r.1.success == spec_contains(state.root, id)
            &&& (r.1.success ==> focus_rel(state.root, id, r.0.root) && r.1.data == Some(
                ClientResponseData::Command(CommandData { subject_container_id: id }),
            ))
            &&& (!r.1.success ==> r.1.error == Some(IpcError::Command(WmError::NotFound)))
            &&& (r.1.success ==> (if spec_focused_leaf(r.0.root) == spec_focused_leaf(state.root) {
                *final (bus) == *old(bus)
            } else {
                spec_published(
                    *old(bus),
                    *final (bus),
                    WmEvent::FocusChanged { focused_id: spec_focused_leaf(r.0.root) },
                )
            }))
        },
        subscribe_shape(spec_tokenize(msg@)) ==> {
            let evs = spec_parse_event_list(spec_tokenize(msg@)[2]).unwrap();
            &&& r.1.success
            &&& r.0 == state
            &&& final (bus).subscribers@.len() == old(bus).subscribers@.len() + 1
            &&& final (bus).subscribers@.drop_last() == old(bus).subscribers@
            &&& final (bus).subscribers@.last().kinds@ == evs
            &&& final (bus).subscribers@.last().buffer@.len() == 0
            &&& (r.1.data matches Some(ClientResponseData::EventSubscription(d))
                && d.subscription_id == final (bus).subscribers@.last().id)
        },
{
    let ghost st0 = state;
    let ghost ts = spec_tokenize(msg@);
    let toks = tokenize(&msg);
    let parsed = parse_command(&toks);
    proof {
        assert(matches_parse(ts, parsed));
    }
    let mut state = state;
    let (data, error): (Option<ClientResponseData>, Option<IpcError>) = match parsed {
        None => (None, Some(IpcError::Parse)),
        Some(AppCommand::Query(q)) => {
            proof {
                assert(query_shape(ts, q));
                if query_shape(ts, QueryCommand::Workspaces) {
                    lemma_query_name_injective(q, QueryCommand::Workspaces);
                }
                if query_shape(ts, QueryCommand::Monitors) {
                    lemma_query_name_injective(q, QueryCommand::Monitors);
                }
                if query_shape(ts, QueryCommand::Windows) {
                    lemma_query_name_injective(q, QueryCommand::Windows);
                }
                if query_shape(ts, QueryCommand::BindingModes) {
                    lemma_query_name_injective(q, QueryCommand::BindingModes);
                }
                if query_shape(ts, QueryCommand::Focused) {
                    lemma_query_name_injective(q, QueryCommand::Focused);
                }
            }
            let d = run_query(&state, q);
            (Some(d), None)
        },
        Some(AppCommand::Cmd { subject_id, op: CmdOp::Focus }) => {
            proof {
                assert(cmd_shape(ts));
            }
            let before = state.root.focused_leaf();
            let (root2, found) = set_focused_descendant(state.root, subject_id);
            state.root = root2;
            if found {
                let after = state.root.focused_leaf();
                if after != before {
                    // subscribers see the change before the requester does
                    bus.publish(WmEvent::FocusChanged { focused_id: after });
                }
                (
                    Some(
                        ClientResponseData::Command(
                            CommandData { subject_container_id: subject_id },
                        ),
                    ),
                    None,
                )
            } else {
                proof {
                    assert(state == st0);
                }
                (None, Some(IpcError::Command(WmError::NotFound)))
            }
        },
        Some(AppCommand::Subscribe { events }) => {
            proof {
                assert(subscribe_shape(ts));
            }
            let sid = fresh_subscription_id();
            bus.subscribe(sid, events, 16);
            (
                Some(
                    ClientResponseData::EventSubscription(
                        EventSubscriptionData { subscription_id: sid },
                    ),
                ),
                None,
            )
        },
    };
    let success = error.is_none();
    let response = ClientResponseMessage { client_message: msg, data, error, success };
    (state, response)
}

/// Answers one read-only query against the state.
fn run_query(state: &WmState, q: QueryCommand) -> (r: ClientResponseData)
    requires
        wm_wf(*state),
    ensures
        q == QueryCommand::Focused ==> r == ClientResponseData::Focused(
            spec_focused_leaf(state.root),
        ),
        q == QueryCommand::Workspaces ==> (r matches ClientResponseData::Workspaces(v) && v@
            == crate::tree::spec_ids_of_kind(state.root, ContainerKind::Workspace)),
        q == QueryCommand::Windows ==> (r matches ClientResponseData::Windows(v) && v@
            == spec_window_ids(state.root)),
        q == QueryCommand::Monitors ==> (r matches ClientResponseData::Monitors(v) && v@
            == crate::tree::spec_ids_of_kind(state.root, ContainerKind::Monitor)),
        q == QueryCommand::BindingModes ==> (r matches ClientResponseData::BindingModes(v) && v@
            .map_values(|s: String| s@) == state.binding_modes@.map_values(|s: String| s@)),
{
    match q {
        QueryCommand::Windows => {
            let mut out: Vec<u128> = Vec::new();
            state.root.ids_of_kind(ContainerKind::TilingWindow, &mut out);
            state.root.ids_of_kind(ContainerKind::FloatingWindow, &mut out);
            state.root.ids_of_kind(ContainerKind::FullscreenWindow, &mut out);
            state.root.ids_of_kind(ContainerKind::MinimizedWindow, &mut out);
            proof {
                assert(out@ =~= spec_window_ids(state.root));
            }
            ClientResponseData::Windows(out)
        },
        QueryCommand::Workspaces => {
            let mut out: Vec<u128> = Vec::new();
            state.root.ids_of_kind(ContainerKind::Workspace, &mut out);
            proof {
                assert(out@ =~= Seq::<u128>::empty() + crate::tree::spec_ids_of_kind(
                    state.root,
                    ContainerKind::Workspace,
                ));
            }
            ClientResponseData::Workspaces(out)
        },
        QueryCommand::Monitors => {
            let mut out: Vec<u128> = Vec::new();
            state.root.ids_of_kind(ContainerKind::Monitor, &mut out);
            proof {
                assert(out@ =~= Seq::<u128>::empty() + crate::tree::spec_ids_of_kind(
                    state.root,
                    ContainerKind::Monitor,
                ));
            }
            ClientResponseData::Monitors(out)
        },
        QueryCommand::BindingModes => {
            let mut out: Vec<String> = Vec::new();
            let mut i: usize = 0;
            while i < state.binding_modes.len()
                invariant
                    i <= state.binding_modes@.len(),
                    out@.len() == i,
                    forall|j: int| 0 <= j < i ==> (#[trigger] out@[j])@ == state.binding_modes@[j]@,
                decreases state.binding_modes@.len() - i,
            {
                out.push(clone_string(&state.binding_modes[i]));
                i = i + 1;
            }
            proof {
                assert(out@.map_values(|s: String| s@) =~= state.binding_modes@.map_values(
                    |s: String| s@,
                ));
            }
            ClientResponseData::BindingModes(out)
        },
        QueryCommand::Focused => ClientResponseData::Focused(state.root.focused_leaf()),
    }
}

/// A copy of one binding-mode name.
fn clone_string(s: &String) -> (r: String)
    ensures
        r@ == s@,
{
    s.clone()
}

} // verus!
