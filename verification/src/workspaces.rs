//! Workspace activation: choosing the workspace configuration to activate
//! and attaching a fresh workspace to a monitor, with the initial tiling
//! direction taken from the monitor's aspect.
use vstd::prelude::*;

use crate::commands::{attach_to, WmError};
use crate::events::{spec_published, EventBus, WmEvent};
use crate::geometry::RectDelta;
use crate::tree::{
    spec_contains, tree_wf, Container, ContainerKind, GapsConfig, TilingDirection,
};

verus! {

/// Configuration of one workspace, as the user wrote it.
pub struct WorkspaceConfig {
    pub name: String,
    /// Index of the monitor this workspace prefers, if any.
    pub bind_to_monitor: Option<u32>,
}

/// The resolved configuration the core consumes.
pub struct UserConfig {
    pub workspace_configs: Vec<WorkspaceConfig>,
    pub gaps: GapsConfig,
    /// Smallest share a resize may leave a tiling child, in basis points.
    pub min_size_bp: u32,
    pub border_delta: RectDelta,
    pub binding_modes: Vec<String>,
}

/// Whether a workspace configuration is inactive: no active workspace
/// carries its name.
pub open spec fn spec_inactive(cfg_name: Seq<char>, active: Seq<Seq<char>>) -> bool {
    forall|i: int| 0 <= i < active.len() ==> #[trigger] active[i] != cfg_name
}

/// Whether the configuration at `j` is inactive and bound to the target
/// monitor index.
pub open spec fn spec_bound_inactive(
    config: UserConfig,
    j: int,
    target: Option<u32>,
    active: Seq<String>,
) -> bool {
    &&& target is Some
    &&& config.workspace_configs@[j].bind_to_monitor == target
    &&& spec_inactive(config.workspace_configs@[j].name@, active.map_values(|s: String| s@))
}

/// Whether a name is active.
fn is_active(name: &String, active: &Vec<String>) -> (r: bool)
    ensures
        r == !spec_inactive(name@, active@.map_values(|s: String| s@)),
{
    let ghost av = active@.map_values(|s: String| s@);
    let mut i: usize = 0;
    while i < active.len()
        invariant
            i <= active@.len(),
            av == active@.map_values(|s: String| s@),
            forall|j: int| 0 <= j < i ==> #[trigger] av[j] != name@,
        decreases active@.len() - i,
    {
        if active[i].eq(name) {
            proof {
                assert(av[i as int] == name@);
            }
            return true;
        }
        i = i + 1;
    }
    false
}

/// Picks the configuration of the workspace to activate: by name among the
/// inactive configurations; else the first inactive one bound to the target
/// monitor; else the first inactive one. Returns its index.
#[verifier::loop_isolation(false)]
pub fn workspace_config(
    workspace_name: Option<&String>,
    target_monitor_index: Option<u32>,
    active: &Vec<String>,
    config: &UserConfig,
) -> (r: Option<usize>)
    ensures
        (r matches Some(k) ==> k < config.workspace_configs@.len() && spec_inactive(
            config.workspace_configs@[k as int].name@,
            active@.map_values(|s: String| s@),
        )),
        workspace_name matches Some(n) ==> (r matches Some(k) ==> config.workspace_configs@[
            k as int
        ].name@ == n@),
        workspace_name matches Some(n) ==> (r is None ==> (forall|j: int|
            0 <= j < config.workspace_configs@.len() ==> !((#[trigger] config.workspace_configs@[
                j
            ].name)@ == n@ && spec_inactive(
                config.workspace_configs@[j].name@,
                active@.map_values(|s: String| s@),
            )))),
        (workspace_name is None && r is None) ==> (forall|j: int|
            0 <= j < config.workspace_configs@.len() ==> !spec_inactive(
                (#[trigger] config.workspace_configs@[j].name)@,
                active@.map_values(|s: String| s@),
            )),
        workspace_name is None ==> (r matches Some(k) ==> ((spec_bound_inactive(
            *config,
            k as int,
            target_monitor_index,
            active@,
        ) && (forall|j: int|
            0 <= j < k ==> !(#[trigger] spec_bound_inactive(
                *config,
                j,
                target_monitor_index,
                active@,
            )))) || ((forall|j: int|
            0 <= j < config.workspace_configs@.len() ==> !(#[trigger] spec_bound_inactive(
                *config,
                j,
                target_monitor_index,
                active@,
            ))) && (forall|j: int|
            0 <= j < k ==> !spec_inactive(
                (#[trigger] config.workspace_configs@[j].name)@,
                active@.map_values(|s: String| s@),
            ))))),
{
    let cfgs = &config.workspace_configs;
    match workspace_name {
        Some(n) => {
            let mut i: usize = 0;
            while i < cfgs.len()
                invariant
                    i <= cfgs@.len(),
                    forall|j: int|
                        0 <= j < i ==> !((#[trigger] cfgs@[j].name)@ == n@ && spec_inactive(
                            cfgs@[j].name@,
                            active@.map_values(|s: String| s@),
                        )),
                decreases cfgs@.len() - i,
            {
                if cfgs[i].name.eq(n) && !is_active(&cfgs[i].name, active) {
                    return Some(i);
                }
                i = i + 1;
            }
            None
        },
        None => {
            // first inactive configuration bound to the target monitor
            if let Some(mi) = target_monitor_index {
                let mut i: usize = 0;
                while i < cfgs.len()
                    invariant
                        i <= cfgs@.len(),
                        forall|j: int|
                            0 <= j < i ==> !spec_bound_inactive(
                                *config,
                                j,
                                target_monitor_index,
                                active@,
                            ),
                    decreases cfgs@.len() - i,
                {
                    let bound = match cfgs[i].bind_to_monitor {
                        Some(b) => b == mi,
                        None => false,
                    };
                    if bound && !is_active(&cfgs[i].name, active) {
                        return Some(i);
                    }
                    i = i + 1;
                }
            }
            // else the next inactive configuration in order
            let mut i: usize = 0;
            while i < cfgs.len()
                invariant
                    i <= cfgs@.len(),
                    forall|j: int|
                        0 <= j < i ==> !spec_inactive(
                            (#[trigger] cfgs@[j].name)@,
                            active@.map_values(|s: String| s@),
                        ),
                decreases cfgs@.len() - i,
            {
                if !is_active(&cfgs[i].name, active) {
                    return Some(i);
                }
                i = i + 1;
            }
            None
        },
    }
}

/// The initial tiling direction a monitor's aspect implies: portrait
/// monitors tile vertically, others horizontally.
pub open spec fn spec_initial_direction(m: Container) -> TilingDirection {
    if m.rect.height > m.rect.width {
        TilingDirection::Vertical
    } else {
        TilingDirection::Horizontal
    }
}

/// Activates a workspace on the monitor: picks its configuration, builds
/// the workspace with the monitor-implied tiling direction and the
/// configured gaps, attaches it at the end of the monitor's workspace
/// list, and publishes the activation. Returns the monitor and the
/// identifier of the new workspace; with no activatable configuration the
/// monitor and the bus are unchanged. Succeeds whenever an inactive
/// configuration of the requested name (or, unnamed, any inactive
/// configuration) exists.
pub fn activate_workspace(
    monitor: Container,
    workspace_name: Option<&String>,
    config: &UserConfig,
    fresh_id: u128,
    bus: &mut EventBus,
) -> (r: (Container, Result<u128, WmError>))
    requires
        tree_wf(monitor),
        monitor.kind == ContainerKind::Monitor,
        !spec_contains(monitor, fresh_id),
        monitor.children@.len() < 10000,
    ensures
        tree_wf(r.0),
        r.1 matches Ok(id) ==> id == fresh_id && spec_contains(r.0, fresh_id)
            && r.0.children@.len() == monitor.children@.len() + 1 && {
            let ws = r.0.children@.last();
            &&& ws.kind == ContainerKind::Workspace
            &&& ws.tiling_direction == spec_initial_direction(monitor)
            &&& ws.gaps == config.gaps
            &&& spec_inactive(ws.name@, active_names_spec(monitor).map_values(|s: String| s@))
        } && spec_published(
            *old(bus),
            *final (bus),
            WmEvent::WorkspaceActivated { id: fresh_id },
        ),
        workspace_name matches Some(n) ==> (r.1 is Ok ==> r.0.children@.last().name@ == n@),
        workspace_name matches Some(n) ==> ((exists|j: int|
            0 <= j < config.workspace_configs@.len() && (#[trigger] config.workspace_configs@[
                j
            ].name)@ == n@ && spec_inactive(
                config.workspace_configs@[j].name@,
                active_names_spec(monitor).map_values(|s: String| s@),
            )) ==> r.1 is Ok),
        workspace_name is None ==> ((exists|j: int|
            0 <= j < config.workspace_configs@.len() && spec_inactive(
                (#[trigger] config.workspace_configs@[j].name)@,
                active_names_spec(monitor).map_values(|s: String| s@),
            )) ==> r.1 is Ok),
        r.1 is Err ==> r.0 == monitor && *final (bus) == *old(bus),
{
    let active = workspace_names(&monitor);
    let picked = workspace_config(workspace_name, Some(monitor.monitor_index), &active, config);
    proof {
        assert(active@.map_values(|s: String| s@) == active_names_spec(monitor).map_values(
            |s: String| s@,
        ));
    }
    let k = match picked {
        Some(k) => k,
        None => {
            return (monitor, Err(WmError::NotFound));
        },
    };
    let dir = if monitor.rect.height > monitor.rect.width {
        TilingDirection::Vertical
    } else {
        TilingDirection::Horizontal
    };
    let mut ws = Container::bare(fresh_id, ContainerKind::Workspace);
    ws.name = clone_name(&config.workspace_configs[k].name);
    ws.tiling_direction = dir;
    ws.gaps = config.gaps;
    proof {
        assert(ws.children@ =~= Seq::<Container>::empty());
        assert(ws.focus_order@ =~= Seq::<u128>::empty());
        assert(ws.focus_order@.to_multiset() =~= crate::tree::child_ids(
            ws.children@,
        ).to_multiset()) by {
            ws.focus_order@.to_multiset_ensures();
            crate::tree::child_ids(ws.children@).to_multiset_ensures();
            assert(crate::tree::child_ids(ws.children@) =~= Seq::<u128>::empty());
        }
        assert(crate::tree::node_wf(ws));
        assert(tree_wf(ws));
    }
    let ghost wsg = ws;
    let end = monitor.children.len();
    let m2 = attach_to(monitor, ws, end);
    proof {
        crate::commands::lemma_insert_index(
            crate::commands::spec_rescaled(
                monitor.children@,
                0,
                0,
                0,
            ),
            0,
            wsg,
        );
        assert(m2.children@ == monitor.children@.insert(monitor.children@.len() as int, wsg));
        assert(m2.children@.last() == wsg);
        assert(crate::tree::seq_contains(m2.children@, fresh_id)) by {
            assert(spec_contains(m2.children@[m2.children@.len() - 1], fresh_id));
        }
        assert(m2.children@.last().name@ == config.workspace_configs@[k as int].name@);
    }
    bus.publish(WmEvent::WorkspaceActivated { id: fresh_id });
    (m2, Ok(fresh_id))
}

/// Names of the workspaces a monitor holds, by child order.
pub open spec fn active_names_spec(m: Container) -> Seq<String> {
    m.children@.map_values(|c: Container| c.name)
}

fn workspace_names(m: &Container) -> (r: Vec<String>)
    ensures
        r@.map_values(|s: String| s@) == active_names_spec(*m).map_values(|s: String| s@),
{
    let mut out: Vec<String> = Vec::new();
    let mut i: usize = 0;
    while i < m.children.len()
        invariant
            i <= m.children@.len(),
            out@.len() == i,
            forall|j: int| 0 <= j < i ==> (#[trigger] out@[j])@ == m.children@[j].name@,
        decreases m.children@.len() - i,
    {
        out.push(clone_name(&m.children[i].name));
        i = i + 1;
    }
    proof {
        assert(out@.map_values(|s: String| s@) =~= active_names_spec(*m).map_values(
            |s: String| s@,
        ));
    }
    out
}

/// A copy of one workspace name.
fn clone_name(s: &String) -> (r: String)
    ensures
        r@ == s@,
{
    s.clone()
}

} // verus!
