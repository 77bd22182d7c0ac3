//! The container tree: a polymorphic hierarchy of root, monitors,
//! workspaces, split containers and windows, with ownership, focus ordering
//! and the structural invariants every command preserves.
use vstd::prelude::*;

use crate::geometry::{rect_wf, LengthValue, Rect, RectDelta};

verus! {

/// Tiling axis of a direction container.
#[derive(Clone, Copy, PartialEq, Eq, Structural, Debug)]
pub enum TilingDirection {
    Horizontal,
    Vertical,
}

/// Focus mode a window is in.
#[derive(Clone, Copy, PartialEq, Eq, Structural, Debug)]
pub enum FocusMode {
    Normal,
    Fullscreen,
}

/// Variant tag of a container.
#[derive(Clone, Copy, PartialEq, Eq, Structural, Debug)]
pub enum ContainerKind {
    Root,
    Monitor,
    Workspace,
    Split,
    TilingWindow,
    FloatingWindow,
    FullscreenWindow,
    MinimizedWindow,
}

/// Gap configuration a workspace carries.
#[derive(Clone, Copy, PartialEq, Eq, Structural, Debug)]
pub struct GapsConfig {
    /// Spacing between adjacent tiling siblings.
    pub inner_gap: LengthValue,
    /// Inset of a workspace from its monitor's border.
    pub outer_gap: RectDelta,
}

/// A full extent along the tiling axis, in basis points of the parent.
/// The sum invariant and all size arithmetic are stated against this.
pub const FULL_SIZE: u32 = 10000;

/// A node of the layout tree. The variant tag decides which fields are
/// meaningful: `rect` for monitors and non-tiling windows, `size_bp` for
/// tiling containers, `tiling_direction` for direction containers, `gaps`
/// and `name` for workspaces, `handle`, `border_delta`, `focus_mode` and
/// `prev_kind` for windows.
#[verifier::ext_equal]
pub struct Container {
    /// Stable identifier. The tree invariants require distinctness among
    /// siblings; process-wide uniqueness and non-reuse are the id
    /// allocator's charge (`WmState::next_id` only counts up).
    pub id: u128,
    pub kind: ContainerKind,
    /// Ordered child list; the parent owns its children.
    pub children: Vec<Container>,
    /// Child identifiers ordered by recency of focus, head first.
    pub focus_order: Vec<u128>,
    /// Share of the parent's extent along its tiling axis, in basis points.
    pub size_bp: u32,
    pub tiling_direction: TilingDirection,
    /// Monitors: physical rectangle. Non-tiling windows: absolute or
    /// restored rectangle.
    pub rect: Rect,
    /// Workspace name.
    pub name: String,
    /// Monitor index.
    pub monitor_index: u32,
    /// Platform window handle.
    pub handle: u64,
    /// Compensation for invisible OS decoration margins.
    pub border_delta: RectDelta,
    /// Workspace gap configuration.
    pub gaps: GapsConfig,
    pub focus_mode: FocusMode,
    /// Display state to restore after fullscreen or minimize.
    pub prev_kind: ContainerKind,
}

pub open spec fn is_tiling_kind(k: ContainerKind) -> bool {
    k == ContainerKind::Split || k == ContainerKind::TilingWindow
}

pub open spec fn is_direction_kind(k: ContainerKind) -> bool {
    k == ContainerKind::Workspace || k == ContainerKind::Split
}

pub open spec fn is_window_kind(k: ContainerKind) -> bool {
    k == ContainerKind::TilingWindow || k == ContainerKind::FloatingWindow || k
        == ContainerKind::FullscreenWindow || k == ContainerKind::MinimizedWindow
}

/// Which variants may stand below which.
pub open spec fn child_kind_ok(parent: ContainerKind, child: ContainerKind) -> bool {
    match parent {
        ContainerKind::Root => child == ContainerKind::Monitor,
        ContainerKind::Monitor => child == ContainerKind::Workspace,
        ContainerKind::Workspace => child == ContainerKind::Split || is_window_kind(child),
        ContainerKind::Split => child == ContainerKind::Split || is_window_kind(child),
        _ => false,
    }
}

/// Executable variant predicates.
pub fn kind_is_tiling(k: ContainerKind) -> (r: bool)
    ensures
        r == is_tiling_kind(k),
{
    match k {
        ContainerKind::Split => true,
        ContainerKind::TilingWindow => true,
        _ => false,
    }
}

pub fn kind_is_direction(k: ContainerKind) -> (r: bool)
    ensures
        r == is_direction_kind(k),
{
    match k {
        ContainerKind::Workspace => true,
        ContainerKind::Split => true,
        _ => false,
    }
}

pub fn kind_child_ok(parent: ContainerKind, child: ContainerKind) -> (r: bool)
    ensures
        r == child_kind_ok(parent, child),
{
    match parent {
        ContainerKind::Root => matches!(child, ContainerKind::Monitor),
        ContainerKind::Monitor => matches!(child, ContainerKind::Workspace),
        ContainerKind::Workspace | ContainerKind::Split => matches!(
            child,
            ContainerKind::Split
                | ContainerKind::TilingWindow
                | ContainerKind::FloatingWindow
                | ContainerKind::FullscreenWindow
                | ContainerKind::MinimizedWindow
        ),
        _ => false,
    }
}

/// Identifiers of a child sequence, in child order.
pub open spec fn child_ids(s: Seq<Container>) -> Seq<u128> {
    s.map_values(|c: Container| c.id)
}

/// How many of these children tile.
pub open spec fn tiling_count(s: Seq<Container>) -> int
    decreases s.len(),
{
    if s.len() == 0 {
        0
    } else {
        tiling_count(s.drop_first()) + if is_tiling_kind(s[0].kind) {
            1int
        } else {
            0int
        }
    }
}

/// Sum of the tiling children's size shares.
pub open spec fn tiling_sum(s: Seq<Container>) -> int
    decreases s.len(),
{
    if s.len() == 0 {
        0
    } else {
        tiling_sum(s.drop_first()) + if is_tiling_kind(s[0].kind) {
            s[0].size_bp as int
        } else {
            0int
        }
    }
}

/// The invariants of one node: child variants fit, child identifiers are
/// distinct, the focus order is a permutation of the child order, tiling
/// children's shares sum to a full extent, a tiling node's own share is at
/// most a full extent, windows are leaves, and the stored rectangle is in
/// bounds.
pub open spec fn node_wf(c: Container) -> bool {
    &&& (forall|i: int|
        0 <= i < c.children@.len() ==> child_kind_ok(c.kind, #[trigger] c.children@[i].kind))
    &&& (forall|i: int, j: int|
        0 <= i < j < c.children@.len() ==> #[trigger] c.children@[i].id != #[trigger] c.children@[
            j
        ].id)
    &&& c.focus_order@.to_multiset() == child_ids(c.children@).to_multiset()
    &&& (tiling_count(c.children@) > 0 ==> tiling_sum(c.children@) == FULL_SIZE)
    &&& (is_tiling_kind(c.kind) ==> c.size_bp <= FULL_SIZE)
    &&& (is_window_kind(c.kind) ==> c.children@.len() == 0)
    &&& rect_wf(c.rect)
}

/// The node invariants, everywhere in the subtree.
pub open spec fn tree_wf(c: Container) -> bool
    decreases c,
{
    node_wf(c) && trees_wf(c.children@)
}

pub open spec fn trees_wf(s: Seq<Container>) -> bool
    decreases s,
{
    forall|i: int| 0 <= i < s.len() ==> tree_wf(#[trigger] s[i])
}

/// Whether some container in the subtree carries this identifier.
pub open spec fn spec_contains(c: Container, id: u128) -> bool
    decreases c,
{
    c.id == id || seq_contains(c.children@, id)
}

pub open spec fn seq_contains(s: Seq<Container>, id: u128) -> bool
    decreases s,
{
    exists|i: int| 0 <= i < s.len() && spec_contains(#[trigger] s[i], id)
}

/// Size of the subtree, the termination measure of every traversal.
pub open spec fn tree_size(c: Container) -> nat
    decreases c,
{
    1 + trees_size(c.children@)
}

pub open spec fn trees_size(s: Seq<Container>) -> nat
    decreases s,
{
    if s.len() == 0 {
        0
    } else {
        tree_size(s[0]) + trees_size(s.drop_first())
    }
}

/// Every child's subtree is strictly smaller than the parent's.
pub proof fn lemma_tree_size_child(s: Seq<Container>, i: int)
    requires
        0 <= i < s.len(),
    ensures
        tree_size(s[i]) <= trees_size(s),
    decreases s.len(),
{
    if i == 0 {
    } else {
        lemma_tree_size_child(s.drop_first(), i - 1);
        assert(s.drop_first()[i - 1] == s[i]);
    }
}

/// Every split container's tiling children keep their shares summing to a
/// full extent exactly, well within the stated tolerance of one basis point.
pub proof fn lemma_size_sum_invariant(c: Container)
    requires
        tree_wf(c),
        tiling_count(c.children@) > 0,
    ensures
        tiling_sum(c.children@) == FULL_SIZE,
        -1 <= tiling_sum(c.children@) - FULL_SIZE <= 1,
{
}

/// Every container with a parent stands in that parent's child list exactly
/// once: no other child slot carries its identifier.
pub proof fn lemma_child_unique(c: Container, i: int, j: int)
    requires
        tree_wf(c),
        0 <= i < c.children@.len(),
        0 <= j < c.children@.len(),
        c.children@[i].id == c.children@[j].id,
    ensures
        i == j,
{
    if i < j {
        assert(c.children@[i].id != c.children@[j].id);
    } else if j < i {
        assert(c.children@[j].id != c.children@[i].id);
    }
}

/// At every internal node, the focus order is a permutation of the child
/// order.
pub proof fn lemma_focus_order_permutation(c: Container)
    requires
        tree_wf(c),
    ensures
        c.focus_order@.to_multiset() == child_ids(c.children@).to_multiset(),
        c.focus_order@.len() == c.children@.len(),
{
    c.focus_order@.to_multiset_ensures();
    child_ids(c.children@).to_multiset_ensures();
    assert(child_ids(c.children@).len() == c.children@.len());
}

impl Container {
    /// A leaf or inner node with the given tag and identifier; every other
    /// field starts neutral.
    pub fn bare(id: u128, kind: ContainerKind) -> (r: Container)
        ensures
            r.id == id,
            r.kind == kind,
            r.children@.len() == 0,
            r.focus_order@.len() == 0,
            r.size_bp == FULL_SIZE,
            r.rect == (Rect { x: 0, y: 0, width: 0, height: 0 }),
            tree_wf(r),
    {
        let r = Container {
            id,
            kind,
            children: Vec::new(),
            focus_order: Vec::new(),
            size_bp: FULL_SIZE,
            tiling_direction: TilingDirection::Horizontal,
            rect: Rect { x: 0, y: 0, width: 0, height: 0 },
            name: String::new(),
            monitor_index: 0,
            handle: 0,
            border_delta: RectDelta {
                left: LengthValue { amount: 0, unit: crate::geometry::LengthUnit::Pixels },
                top: LengthValue { amount: 0, unit: crate::geometry::LengthUnit::Pixels },
                right: LengthValue { amount: 0, unit: crate::geometry::LengthUnit::Pixels },
                bottom: LengthValue { amount: 0, unit: crate::geometry::LengthUnit::Pixels },
            },
            gaps: GapsConfig {
                inner_gap: LengthValue { amount: 0, unit: crate::geometry::LengthUnit::Pixels },
                outer_gap: RectDelta {
                    left: LengthValue { amount: 0, unit: crate::geometry::LengthUnit::Pixels },
                    top: LengthValue { amount: 0, unit: crate::geometry::LengthUnit::Pixels },
                    right: LengthValue { amount: 0, unit: crate::geometry::LengthUnit::Pixels },
                    bottom: LengthValue { amount: 0, unit: crate::geometry::LengthUnit::Pixels },
                },
            },
            focus_mode: FocusMode::Normal,
            prev_kind: kind,
        };
        proof {
            assert(r.focus_order@.to_multiset() =~= child_ids(r.children@).to_multiset()) by {
                r.focus_order@.to_multiset_ensures();
                child_ids(r.children@).to_multiset_ensures();
                assert(child_ids(r.children@) =~= Seq::<u128>::empty());
            }
        }
        r
    }

    /// Whether this subtree holds a container with the given identifier.
    pub fn contains_id(&self, id: u128) -> (r: bool)
        ensures
            r == spec_contains(*self, id),
        decreases tree_size(*self),
    {
        if self.id == id {
            return true;
        }
        let mut i: usize = 0;
        while i < self.children.len()
            invariant
                i <= self.children@.len(),
                forall|j: int| 0 <= j < i ==> !spec_contains(#[trigger] self.children@[j], id),
            decreases self.children@.len() - i,
        {
            proof {
                lemma_tree_size_child(self.children@, i as int);
            }
            if self.children[i].contains_id(id) {
                return true;
            }
            i = i + 1;
        }
        proof {
            assert(!seq_contains(self.children@, id));
        }
        false
    }

    /// Identifiers of every descendant (and the node itself) with the given
    /// tag, in pre-order.
    pub fn ids_of_kind(&self, kind: ContainerKind, out: &mut Vec<u128>)
        ensures
            final (out)@ == old(out)@ + spec_ids_of_kind(*self, kind),
        decreases tree_size(*self),
    {
        if kind_eq(self.kind, kind) {
            out.push(self.id);
        }
        let mut i: usize = 0;
        while i < self.children.len()
            invariant
                i <= self.children@.len(),
                out@ == old(out)@ + (if self.kind == kind {
                    seq![self.id]
                } else {
                    Seq::<u128>::empty()
                }) + spec_ids_of_kind_seq(self.children@.take(i as int), kind),
            decreases self.children@.len() - i,
        {
            proof {
                lemma_tree_size_child(self.children@, i as int);
            }
            self.children[i].ids_of_kind(kind, out);
            proof {
                lemma_ids_of_kind_take(self.children@, i as int, kind);
            }
            i = i + 1;
        }
        proof {
            assert(self.children@.take(self.children@.len() as int) =~= self.children@);
            if self.kind == kind {
                assert(out@ =~= old(out)@ + spec_ids_of_kind(*self, kind));
            } else {
                assert((if self.kind == kind {
                    seq![self.id]
                } else {
                    Seq::<u128>::empty()
                }) =~= Seq::<u128>::empty());
                assert(out@ =~= old(out)@ + spec_ids_of_kind(*self, kind));
            }
        }
    }

    /// The focused leaf: follow focus-order heads downward from this node.
    pub fn focused_leaf(&self) -> (r: u128)
        requires
            tree_wf(*self),
        ensures
            r == spec_focused_leaf(*self),
        decreases tree_size(*self),
    {
        if self.children.len() == 0 {
            return self.id;
        }
        proof {
            lemma_focus_head_in_children(*self);
        }
        let head = self.focus_order[0];
        let mut i: usize = 0;
        let ghost hi = choose|j: int|
            0 <= j < self.children@.len() && self.children@[j].id == head;
        while i < self.children.len()
            invariant
                tree_wf(*self),
                self.children@.len() > 0,
                self.focus_order@.len() > 0,
                head == self.focus_order@[0],
                0 <= hi < self.children@.len() && self.children@[hi].id == head,
                i <= self.children@.len(),
                forall|j: int| 0 <= j < i ==> #[trigger] self.children@[j].id != head,
            decreases self.children@.len() - i,
        {
            if self.children[i].id == head {
                proof {
                    lemma_tree_size_child(self.children@, i as int);
                    assert(i as int == hi) by {
                        lemma_child_unique(*self, i as int, hi);
                    }
                }
                return self.children[i].focused_leaf();
            }
            i = i + 1;
        }
        proof {
            assert(false);
        }
        self.id
    }
}

/// Executable tag equality.
pub fn kind_eq(a: ContainerKind, b: ContainerKind) -> (r: bool)
    ensures
        r == (a == b),
{
    a == b
}

/// Identifiers with the given tag in this subtree, pre-order.
pub open spec fn spec_ids_of_kind(c: Container, kind: ContainerKind) -> Seq<u128>
    decreases c,
{
    (if c.kind == kind {
        seq![c.id]
    } else {
        Seq::<u128>::empty()
    }) + spec_ids_of_kind_seq(c.children@, kind)
}

pub open spec fn spec_ids_of_kind_seq(s: Seq<Container>, kind: ContainerKind) -> Seq<u128>
    decreases s,
{
    if s.len() == 0 {
        Seq::<u128>::empty()
    } else {
        spec_ids_of_kind(s[0], kind) + spec_ids_of_kind_seq(s.drop_first(), kind)
    }
}

proof fn lemma_ids_of_kind_take(s: Seq<Container>, i: int, kind: ContainerKind)
    requires
        0 <= i < s.len(),
    ensures
        spec_ids_of_kind_seq(s.take(i + 1), kind) == spec_ids_of_kind_seq(s.take(i), kind)
            + spec_ids_of_kind(s[i], kind),
    decreases i,
{
    if i == 0 {
        assert(s.take(1)[0] == s[0]);
        assert(s.take(1).drop_first() =~= s.take(0));
        assert(spec_ids_of_kind_seq(s.take(0), kind) == Seq::<u128>::empty());
        assert(spec_ids_of_kind_seq(s.take(1), kind) =~= spec_ids_of_kind(s[0], kind));
    } else {
        lemma_ids_of_kind_take(s.drop_first(), i - 1, kind);
        assert(s.take(i + 1)[0] == s[0]);
        assert(s.take(i + 1).drop_first() =~= s.drop_first().take(i));
        assert(s.take(i)[0] == s[0]);
        assert(s.take(i).drop_first() =~= s.drop_first().take(i - 1));
        assert(s.drop_first()[i - 1] == s[i]);
        assert(spec_ids_of_kind_seq(s.take(i + 1), kind) =~= spec_ids_of_kind_seq(
            s.take(i),
            kind,
        ) + spec_ids_of_kind(s[i], kind));
    }
}

/// The identifier the focus order resolves to at this node.
pub open spec fn spec_focused_leaf(c: Container) -> u128
    decreases c,
{
    if c.children@.len() == 0 {
        c.id
    } else {
        let hi = choose|j: int|
            0 <= j < c.children@.len() && c.children@[j].id == c.focus_order@[0];
        if 0 <= hi < c.children@.len() {
            spec_focused_leaf(c.children@[hi])
        } else {
            c.id
        }
    }
}

/// In a well-formed node with children, the focus-order head names a child.
pub proof fn lemma_focus_head_in_children(c: Container)
    requires
        node_wf(c),
        c.children@.len() > 0,
    ensures
        c.focus_order@.len() == c.children@.len(),
        exists|j: int| 0 <= j < c.children@.len() && c.children@[j].id == c.focus_order@[0],
{
    let ids = child_ids(c.children@);
    c.focus_order@.to_multiset_ensures();
    ids.to_multiset_ensures();
    assert(c.focus_order@.len() == ids.len());
    assert(c.focus_order@.len() > 0);
    let head = c.focus_order@[0];
    assert(c.focus_order@.to_multiset().count(head) > 0) by {
        assert(c.focus_order@.contains(head));
    }
    assert(ids.to_multiset().count(head) > 0);
    assert(ids.contains(head));
    let j = choose|j: int| 0 <= j < ids.len() && ids[j] == head;
    assert(c.children@[j].id == head);
}

} // verus!
