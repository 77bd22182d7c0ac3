use wm_core::commands::{attach_to, detach_from, flatten_in, resize_in, set_focused_descendant};
use wm_core::events::{to_subscribable, EventBus, SubscribableEvent, WmEvent};
use wm_core::geometry::{LengthUnit, LengthValue, PositionBehavior, Rect, RectDelta};
use wm_core::ipc::{parse_command, process_message, ClientResponseData, IpcError, WmState};
use wm_core::layout::layout_tiling;
use wm_core::text::tokenize;
use wm_core::tree::{Container, ContainerKind, TilingDirection, FULL_SIZE};
use wm_core::workspaces::{activate_workspace, UserConfig, WorkspaceConfig};

fn px(n: i32) -> LengthValue {
    LengthValue::new(n, LengthUnit::Pixels)
}

fn window(id: u128) -> Container {
    Container::bare(id, ContainerKind::TilingWindow)
}

fn workspace(id: u128) -> Container {
    let mut ws = Container::bare(id, ContainerKind::Workspace);
    ws.tiling_direction = TilingDirection::Horizontal;
    ws
}

#[test]
fn shorthand_three_tokens() {
    let d = RectDelta::parse(&b"5px 10px 5px".to_vec()).unwrap();
    assert_eq!(d.top, px(10));
    assert_eq!(d.right, px(5));
    assert_eq!(d.bottom, px(5));
    assert_eq!(d.left, px(5));
}

#[test]
fn shorthand_one_token() {
    let d = RectDelta::parse(&b"5px".to_vec()).unwrap();
    assert_eq!(d.top, px(5));
    assert_eq!(d.right, px(5));
    assert_eq!(d.bottom, px(5));
    assert_eq!(d.left, px(5));
}

#[test]
fn shorthand_two_tokens() {
    let d = RectDelta::parse(&b"7px 3px".to_vec()).unwrap();
    assert_eq!(d.top, px(7));
    assert_eq!(d.bottom, px(7));
    assert_eq!(d.left, px(3));
    assert_eq!(d.right, px(3));
}

#[test]
fn shorthand_five_tokens_fails() {
    assert!(RectDelta::parse(&b"5px 10px 5px 10px 5px".to_vec()).is_none());
}

#[test]
fn shorthand_bad_token_fails() {
    assert!(RectDelta::parse(&b"5qq".to_vec()).is_none());
    assert!(RectDelta::parse(&b"px".to_vec()).is_none());
    assert!(RectDelta::parse(&b"".to_vec()).is_none());
}

#[test]
fn length_units_and_negatives() {
    let v = RectDelta::parse(&b"50% -3px 12vw 9vh".to_vec()).unwrap();
    assert_eq!(v.top, LengthValue::new(50, LengthUnit::PercentOfParent));
    assert_eq!(v.right, px(-3));
    assert_eq!(v.bottom, LengthValue::new(12, LengthUnit::ViewportWidthPercent));
    assert_eq!(v.left, LengthValue::new(9, LengthUnit::ViewportHeightPercent));
}

#[test]
fn to_pixels_percent() {
    let v = LengthValue::new(50, LengthUnit::PercentOfParent);
    assert_eq!(v.to_pixels(1920), 960);
    assert_eq!(px(25).to_pixels(1920), 25);
}

#[test]
fn rect_delta_render_parse_round_trip() {
    let d = RectDelta::new(px(1), LengthValue::new(2, LengthUnit::PercentOfParent), px(-3), px(44));
    let text = d.render();
    assert_eq!(text, b"2% -3px 44px 1px".to_vec());
    let back = RectDelta::parse(&text).unwrap();
    assert_eq!(back, d);
}

#[test]
fn position_behavior_to_rect() {
    let r = Rect::from_xy(3, 4, 100, 200);
    assert_eq!(r.to_rect(), r);
    assert_eq!(r.right(), 103);
    assert_eq!(r.bottom(), 204);
    assert_eq!(r.width(), 100);
}

#[test]
fn attach_and_resize_shares() {
    // workspace with one tiling child A at the full extent
    let ws = workspace(1);
    let a = window(10);
    let ws = attach_to(ws, a, 0);
    assert_eq!(ws.children[0].size_bp, FULL_SIZE);
    // attach B: both halves
    let b = window(11);
    let ws = attach_to(ws, b, 1);
    assert_eq!(ws.children[0].size_bp, 5000);
    assert_eq!(ws.children[1].size_bp, 5000);
    let total: u32 = ws.children.iter().map(|c| c.size_bp).sum();
    assert_eq!(total, FULL_SIZE);
    // resize B to 0.7: A takes 0.3
    let ws = resize_in(ws, 1, 7000);
    assert_eq!(ws.children[1].size_bp, 7000);
    assert_eq!(ws.children[0].size_bp, 3000);
}

#[test]
fn attach_detach_restores_shape() {
    let ws = workspace(1);
    let ws = attach_to(ws, window(10), 0);
    let ws = attach_to(ws, window(11), 1);
    let before: Vec<u128> = ws.children.iter().map(|c| c.id).collect();
    let ws = attach_to(ws, window(12), 2);
    let (ws, removed) = detach_from(ws, 2);
    assert_eq!(removed.id, 12);
    let after: Vec<u128> = ws.children.iter().map(|c| c.id).collect();
    assert_eq!(before, after);
    let total: u32 = ws.children.iter().map(|c| c.size_bp).sum();
    assert_eq!(total, FULL_SIZE);
    assert_eq!(ws.focus_order.len(), ws.children.len());
}

#[test]
fn move_with_flatten() {
    // workspace -> split(H){A, B} and split(V){C, D}
    let mut split_h = Container::bare(2, ContainerKind::Split);
    split_h.tiling_direction = TilingDirection::Horizontal;
    let split_h = attach_to(split_h, window(10), 0);
    let split_h = attach_to(split_h, window(11), 1);
    let mut split_v = Container::bare(3, ContainerKind::Split);
    split_v.tiling_direction = TilingDirection::Vertical;
    let split_v = attach_to(split_v, window(12), 0);
    let split_v = attach_to(split_v, window(13), 1);
    let ws = workspace(1);
    let ws = attach_to(ws, split_h, 0);
    let ws = attach_to(ws, split_v, 1);
    // move C out of the vertical split into the workspace
    let (ws, split_v) = detach_from(ws, 1);
    let (split_v, c) = detach_from(split_v, 0);
    assert_eq!(c.id, 12);
    let ws = attach_to(ws, c, 1);
    let ws = attach_to(ws, split_v, 2);
    // the vertical split now has one tiling child: flattening promotes D
    assert_eq!(ws.children[2].children.len(), 1);
    let ws = flatten_in(ws, 2);
    assert_eq!(ws.children[2].id, 13);
    assert_eq!(ws.children[2].kind, ContainerKind::TilingWindow);
    let total: u32 = ws.children.iter().map(|c| c.size_bp).sum();
    assert_eq!(total, FULL_SIZE);
}

#[test]
fn flatten_is_noop_only_when_degenerate() {
    // a split with two tiling children must not be flattened
    let mut split = Container::bare(2, ContainerKind::Split);
    split.tiling_direction = TilingDirection::Vertical;
    let split = attach_to(split, window(10), 0);
    let split = attach_to(split, window(11), 1);
    assert_eq!(split.children.len(), 2);
}

#[test]
fn layout_two_horizontal_windows() {
    let monitor = Rect::from_xy(0, 0, 1920, 1080);
    let rects = layout_tiling(monitor, TilingDirection::Horizontal, 10, &vec![5000, 5000]);
    assert_eq!(rects[0], Rect::from_xy(0, 0, 955, 1080));
    assert_eq!(rects[1], Rect::from_xy(965, 0, 955, 1080));
}

#[test]
fn layout_single_child_fills_workspace() {
    let content = Rect::from_xy(5, 5, 1910, 1070);
    let rects = layout_tiling(content, TilingDirection::Horizontal, 10, &vec![10000]);
    assert_eq!(rects.len(), 1);
    assert_eq!(rects[0], content);
}

#[test]
fn layout_vertical_last_absorbs() {
    let monitor = Rect::from_xy(0, 0, 1000, 999);
    let rects = layout_tiling(monitor, TilingDirection::Vertical, 0, &vec![3333, 3333, 3334]);
    assert_eq!(rects.len(), 3);
    assert_eq!(rects[0].height + rects[1].height + rects[2].height, 999);
    assert_eq!(rects[2].y + rects[2].height, 999);
    assert_eq!(rects[0].width, 1000);
}

#[test]
fn focus_moves_to_head() {
    let ws = workspace(1);
    let ws = attach_to(ws, window(10), 0);
    let ws = attach_to(ws, window(11), 1);
    let (ws, found) = set_focused_descendant(ws, 11);
    assert!(found);
    assert_eq!(ws.focus_order[0], 11);
    let leaf = ws.focused_leaf();
    assert_eq!(leaf, 11);
    // focusing the focused container again changes nothing
    let snapshot: Vec<u128> = ws.focus_order.clone();
    let (ws, found) = set_focused_descendant(ws, 11);
    assert!(found);
    assert_eq!(ws.focus_order, snapshot);
}

fn demo_state() -> WmState {
    let root = Container::bare(1, ContainerKind::Root);
    let mut monitor = Container::bare(2, ContainerKind::Monitor);
    monitor.rect = Rect::from_xy(0, 0, 1920, 1080);
    let ws = workspace(3);
    let ws = attach_to(ws, window(10), 0);
    let monitor = attach_to(monitor, ws, 0);
    let root = attach_to(root, monitor, 0);
    WmState { root, next_id: 100, binding_modes: vec!["resize".to_string()] }
}

#[test]
fn ipc_query_workspaces() {
    let state = demo_state();
    let mut bus = EventBus::new();
    let (state, resp) = process_message(state, &mut bus, b"query workspaces".to_vec());
    assert!(resp.success);
    assert_eq!(resp.message_type(), "client_response");
    assert_eq!(resp.client_message, b"query workspaces".to_vec());
    match resp.data {
        Some(ClientResponseData::Workspaces(ids)) => assert_eq!(ids, vec![3u128]),
        _ => panic!("expected workspace data"),
    }
    let (_, resp) = process_message(state, &mut bus, b"query focused".to_vec());
    match resp.data {
        Some(ClientResponseData::Focused(id)) => assert_eq!(id, 10),
        _ => panic!("expected focused data"),
    }
}

#[test]
fn ipc_parse_error() {
    let state = demo_state();
    let mut bus = EventBus::new();
    let (_, resp) = process_message(state, &mut bus, b"frobnicate now".to_vec());
    assert!(!resp.success);
    assert_eq!(resp.error, Some(IpcError::Parse));
    assert!(resp.data.is_none());
}

#[test]
fn ipc_cmd_focus() {
    let state = demo_state();
    let mut bus = EventBus::new();
    // focus the only window by its identifier, spelled as a UUID
    let msg = b"cmd --id 00000000-0000-0000-0000-00000000000a focus".to_vec();
    let (state, resp) = process_message(state, &mut bus, msg);
    assert!(resp.success, "{:?}", resp.error);
    match resp.data {
        Some(ClientResponseData::Command(d)) => assert_eq!(d.subject_container_id, 10),
        _ => panic!("expected command data"),
    }
    drop(state);
}

#[test]
fn subscribe_and_receive_one_event() {
    let state = demo_state();
    let mut bus = EventBus::new();
    let (_, resp) = process_message(state, &mut bus, b"subscribe --events focus_changed".to_vec());
    assert!(resp.success);
    let sid = match resp.data {
        Some(ClientResponseData::EventSubscription(d)) => d.subscription_id,
        _ => panic!("expected subscription data"),
    };
    assert_eq!(bus.subscribers.len(), 1);
    assert_eq!(bus.subscribers[0].id, sid);
    // a matching event lands in the buffer once; others are filtered
    bus.publish(WmEvent::FocusChanged { focused_id: 10 });
    bus.publish(WmEvent::WindowManaged { id: 7 });
    assert_eq!(bus.subscribers[0].buffer, vec![WmEvent::FocusChanged { focused_id: 10 }]);
    // disconnecting cancels the subscription
    bus.cancel(sid);
    assert_eq!(bus.subscribers.len(), 0);
}

#[test]
fn event_kinds_map() {
    assert_eq!(to_subscribable(&WmEvent::WorkspaceActivated { id: 1 }),
        SubscribableEvent::WorkspaceActivated);
    assert_eq!(to_subscribable(&WmEvent::BindingModesChanged),
        SubscribableEvent::BindingModesChanged);
}

#[test]
fn tokenize_and_parse() {
    let toks = tokenize(&b"  query\tmonitors \n".to_vec());
    assert_eq!(toks, vec![b"query".to_vec(), b"monitors".to_vec()]);
    assert!(parse_command(&toks).is_some());
    assert!(parse_command(&vec![b"query".to_vec(), b"nonsense".to_vec()]).is_none());
    assert!(parse_command(&vec![b"subscribe".to_vec(), b"--events".to_vec(),
        b"focus_changed,bogus".to_vec()]).is_none());
}

#[test]
fn activate_workspace_picks_inactive_config() {
    let mut monitor = Container::bare(2, ContainerKind::Monitor);
    monitor.rect = Rect::from_xy(0, 0, 1080, 1920);
    monitor.monitor_index = 0;
    let config = UserConfig {
        workspace_configs: vec![
            WorkspaceConfig { name: "1".to_string(), bind_to_monitor: None },
            WorkspaceConfig { name: "2".to_string(), bind_to_monitor: Some(0) },
        ],
        gaps: wm_core::tree::GapsConfig {
            inner_gap: px(10),
            outer_gap: RectDelta::new(px(0), px(0), px(0), px(0)),
        },
        min_size_bp: 100,
        border_delta: RectDelta::new(px(0), px(0), px(0), px(0)),
        binding_modes: vec![],
    };
    let mut bus = EventBus::new();
    let (monitor, r) = activate_workspace(monitor, None, &config, 50, &mut bus);
    assert_eq!(r, Ok(50));
    let ws = monitor.children.last().unwrap();
    // a portrait monitor starts workspaces tiling vertically
    assert_eq!(ws.tiling_direction, TilingDirection::Vertical);
    assert_eq!(ws.name, "2");
    // the bound workspace is taken first; activating again picks the other
    let (monitor, r) = activate_workspace(monitor, None, &config, 51, &mut bus);
    assert_eq!(r, Ok(51));
    assert_eq!(monitor.children.last().unwrap().name, "1");
    // nothing inactive remains
    let (_, r) = activate_workspace(monitor, None, &config, 52, &mut bus);
    assert!(r.is_err());
}

#[test]
fn resize_below_min_is_refused_unchanged() {
    let ws = workspace(1);
    let ws = attach_to(ws, window(10), 0);
    let ws = attach_to(ws, window(11), 1);
    // below the minimum share: refused, shares untouched
    let (ws, r) = wm_core::commands::resize_tiling_container(ws, 1, 50, 100);
    assert!(r.is_err());
    assert_eq!(ws.children[0].size_bp, 5000);
    assert_eq!(ws.children[1].size_bp, 5000);
    // so large the sibling would fall below the minimum: refused too
    let (ws, r) = wm_core::commands::resize_tiling_container(ws, 1, 9950, 100);
    assert!(r.is_err());
    // a request inside the band goes through
    let (ws, r) = wm_core::commands::resize_tiling_container(ws, 1, 7000, 100);
    assert!(r.is_ok());
    assert_eq!(ws.children[1].size_bp, 7000);
    assert_eq!(ws.children[0].size_bp, 3000);
}

#[test]
fn flatten_refuses_non_degenerate_split() {
    let mut split = Container::bare(2, ContainerKind::Split);
    split.tiling_direction = TilingDirection::Vertical;
    let split = attach_to(split, window(10), 0);
    let split = attach_to(split, window(11), 1);
    let ws = workspace(1);
    let ws = attach_to(ws, split, 0);
    // two tiling children: flattening is a no-op
    let (ws, changed) = wm_core::commands::flatten_split_container(ws, 0);
    assert!(!changed);
    assert_eq!(ws.children[0].children.len(), 2);
    // a plain window is not a split either
    let ws = attach_to(ws, window(12), 1);
    let (ws, changed) = wm_core::commands::flatten_split_container(ws, 1);
    assert!(!changed);
    drop(ws);
}

#[test]
fn full_subscriber_buffer_drops_oldest() {
    let mut bus = EventBus::new();
    bus.subscribe(9, vec![SubscribableEvent::WindowManaged], 2);
    bus.publish(WmEvent::WindowManaged { id: 1 });
    bus.publish(WmEvent::WindowManaged { id: 2 });
    bus.publish(WmEvent::WindowManaged { id: 3 });
    // the oldest frame made room for the newest
    assert_eq!(bus.subscribers[0].buffer,
        vec![WmEvent::WindowManaged { id: 2 }, WmEvent::WindowManaged { id: 3 }]);
}

#[test]
fn attach_detach_share_renormalization_rounds() {
    // the structure comes back exactly; the rounded shares may shift by a
    // basis point, which the sum invariant still absorbs
    let ws = workspace(1);
    let ws = attach_to(ws, window(10), 0);
    let ws = attach_to(ws, window(11), 1);
    let ws = attach_to(ws, window(12), 2);
    let (ws, _) = detach_from(ws, 2);
    assert_eq!(ws.children[0].size_bp, 4999);
    assert_eq!(ws.children[1].size_bp, 5001);
    let total: u32 = ws.children.iter().map(|c| c.size_bp).sum();
    assert_eq!(total, FULL_SIZE);
}
