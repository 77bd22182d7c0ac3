//! The command pipeline: tree mutations that preserve the structural
//! invariants. Attaching inserts a tiling child at `1/(n+1)` of the extent
//! and scales its siblings by `n/(n+1)`; detaching renormalizes the
//! remaining shares back to a full extent; resizing clamps to the allowed
//! band and redistributes the difference proportionally; flattening
//! promotes the only tiling child of a degenerate split.
use vstd::prelude::*;

use crate::layout::lemma_div_superadd;
use crate::tree::{
    child_ids, child_kind_ok, ContainerKind, is_tiling_kind, is_window_kind, kind_child_ok, kind_is_tiling,
    node_wf, seq_contains, spec_contains, tiling_count, tiling_sum, tree_wf, trees_wf, Container,
    FULL_SIZE,
};

verus! {

/// Why a command was refused; the tree is unchanged in every case.
#[derive(Clone, Copy, PartialEq, Eq, Structural, Debug)]
pub enum WmError {
    /// No container in the tree carries the given identifier.
    NotFound,
    /// The container's variant does not fit the operation or the parent.
    KindMismatch,
    /// The insertion index lies past the end of the child list.
    BadIndex,
    /// The identifier is already present in the tree.
    DuplicateId,
    /// The requested size lies outside the allowed band.
    SizeOutOfBounds,
}

/// The container with its size share replaced.
pub open spec fn size_set(c: Container, v: int) -> Container {
    Container { size_bp: v as u32, ..c }
}

/// A share clamped into the representable band.
pub open spec fn clamp_bp(v: int) -> int {
    if v < 0 {
        0
    } else if v > FULL_SIZE as int {
        FULL_SIZE as int
    } else {
        v
    }
}

/// A rescaled share: the old share times `num / den`, rounded down.
pub open spec fn spec_new_size(size: int, num: int, den: int) -> int {
    if den <= 0 {
        0
    } else {
        size * num / den
    }
}

/// Proportional redistribution of the tiling shares in `s` so that they sum
/// to the budget `left`: every tiling child but the last takes its share
/// scaled by `num / den`; the last tiling child absorbs what remains of the
/// budget. Non-tiling children are untouched.
pub open spec fn spec_rescaled(s: Seq<Container>, num: int, den: int, left: int) -> Seq<Container>
    decreases s.len(),
{
    if s.len() == 0 {
        s
    } else {
        let c0 = s[0];
        let rest = s.drop_first();
        if !is_tiling_kind(c0.kind) {
            seq![c0] + spec_rescaled(rest, num, den, left)
        } else if tiling_count(rest) == 0 {
            seq![size_set(c0, clamp_bp(left))] + rest
        } else {
            let ns = spec_new_size(c0.size_bp as int, num, den);
            seq![size_set(c0, ns)] + spec_rescaled(rest, num, den, left - ns)
        }
    }
}

/// What redistribution guarantees: same length, identifiers, kinds and
/// subtrees; shares stay within a full extent; and when any tiling child is
/// present the new shares sum exactly to the budget.
pub proof fn lemma_rescaled_props(s: Seq<Container>, num: int, den: int, left: int)
    requires
        0 <= num <= FULL_SIZE,
        0 <= left <= FULL_SIZE,
        den >= 0,
        den > 0 ==> num * tiling_sum(s) / den <= left,
        den > 0 ==> (num <= den || (forall|i: int|
            0 <= i < s.len() && is_tiling_kind(#[trigger] s[i].kind) ==> s[i].size_bp <= den)),
        forall|i: int|
            0 <= i < s.len() && is_tiling_kind(#[trigger] s[i].kind) ==> s[i].size_bp <= FULL_SIZE,
        forall|i: int| 0 <= i < s.len() && is_tiling_kind(#[trigger] s[i].kind) ==> s[i].size_bp
            <= tiling_sum(s),
    ensures
        spec_rescaled(s, num, den, left).len() == s.len(),
        forall|i: int|
            0 <= i < s.len() ==> (#[trigger] spec_rescaled(s, num, den, left)[i]) == s[i]
                || spec_rescaled(s, num, den, left)[i] == size_set(
                s[i],
                spec_rescaled(s, num, den, left)[i].size_bp as int,
            ),
        forall|i: int|
            0 <= i < s.len() ==> !is_tiling_kind(#[trigger] s[i].kind) ==> spec_rescaled(
                s,
                num,
                den,
                left,
            )[i] == s[i],
        forall|i: int|
            0 <= i < s.len() && is_tiling_kind(#[trigger] s[i].kind) ==> spec_rescaled(
                s,
                num,
                den,
                left,
            )[i].size_bp <= FULL_SIZE,
        tiling_count(s) > 0 ==> tiling_sum(spec_rescaled(s, num, den, left)) == left,
        tiling_count(s) == 0 ==> spec_rescaled(s, num, den, left) == s,
    decreases s.len(),
{
    let r = spec_rescaled(s, num, den, left);
    if s.len() == 0 {
    } else {
        let c0 = s[0];
        let rest = s.drop_first();
        lemma_tiling_sum_nonneg(rest);
        lemma_tiling_sum_nonneg(s);
        assert(tiling_sum(s) == tiling_sum(rest) + (if is_tiling_kind(c0.kind) {
            c0.size_bp as int
        } else {
            0int
        }));
        if !is_tiling_kind(c0.kind) {
            lemma_rescaled_props(rest, num, den, left);
            let rr = spec_rescaled(rest, num, den, left);
            assert(r == seq![c0] + rr);
            assert(r[0] == c0);
            assert(forall|i: int| 1 <= i < r.len() ==> r[i] == rr[i - 1]);
            assert(forall|i: int| 1 <= i < s.len() ==> rest[i - 1] == s[i]);
            assert(r.drop_first() =~= rr);
            if tiling_count(rest) == 0 {
                assert(r =~= s);
            }
        } else if tiling_count(rest) == 0 {
            assert(r == seq![size_set(c0, clamp_bp(left))] + rest);
            assert(r[0] == size_set(c0, clamp_bp(left)));
            assert(forall|i: int| 1 <= i < r.len() ==> r[i] == rest[i - 1]);
            assert(r.drop_first() =~= rest);
            assert(clamp_bp(left) == left);
            lemma_tiling_sum_count_zero(rest);
            assert(tiling_sum(r) == left + tiling_sum(rest));
        } else {
            let ns = spec_new_size(c0.size_bp as int, num, den);
            assert(ns >= 0) by {
                if den > 0 {
                    assert(c0.size_bp * num >= 0) by (nonlinear_arith)
                        requires c0.size_bp >= 0, num >= 0;
                    vstd::arithmetic::div_mod::lemma_div_is_ordered(
                        0,
                        c0.size_bp as int * num,
                        den,
                    );
                }
            }
            assert(ns <= FULL_SIZE) by {
                if den > 0 {
                    if num <= den {
                        assert(c0.size_bp * num <= c0.size_bp * den) by (nonlinear_arith)
                            requires num <= den, c0.size_bp >= 0;
                        vstd::arithmetic::div_mod::lemma_div_is_ordered(
                            c0.size_bp as int * num,
                            c0.size_bp as int * den,
                            den,
                        );
                        vstd::arithmetic::div_mod::lemma_div_multiples_vanish(
                            c0.size_bp as int,
                            den,
                        );
                    } else {
                        assert(c0.size_bp <= den);
                        assert(c0.size_bp * num <= den * num) by (nonlinear_arith)
                            requires c0.size_bp <= den, num >= 0;
                        vstd::arithmetic::div_mod::lemma_div_is_ordered(
                            c0.size_bp as int * num,
                            den * num,
                            den,
                        );
                        assert(den * num / den == num) by {
                            vstd::arithmetic::div_mod::lemma_div_multiples_vanish(num, den);
                            assert(den * num == num * den) by (nonlinear_arith);
                        }
                    }
                }
            }
            // budget passed to the tail still covers the tail's scaled shares
            assert(den > 0 ==> num * tiling_sum(rest) / den <= left - ns) by {
                if den > 0 {
                    assert(num * tiling_sum(rest) >= 0) by (nonlinear_arith)
                        requires num >= 0, tiling_sum(rest) >= 0;
                    assert(c0.size_bp * num >= 0) by (nonlinear_arith)
                        requires c0.size_bp >= 0, num >= 0;
                    lemma_div_superadd(num * tiling_sum(rest), c0.size_bp as int * num, den);
                    assert(num * tiling_sum(rest) + c0.size_bp * num == num * tiling_sum(s))
                        by (nonlinear_arith)
                        requires tiling_sum(s) == tiling_sum(rest) + c0.size_bp;
                    assert(c0.size_bp as int * num == num * c0.size_bp as int)
                        by (nonlinear_arith);
                }
            }
            assert(left - ns <= FULL_SIZE);
            assert(0 <= left - ns) by {
                if den > 0 {
                    assert(num * tiling_sum(rest) / den >= 0) by {
                        assert(num * tiling_sum(rest) >= 0) by (nonlinear_arith)
                            requires num >= 0, tiling_sum(rest) >= 0;
                        vstd::arithmetic::div_mod::lemma_div_is_ordered(
                            0,
                            num * tiling_sum(rest),
                            den,
                        );
                    }
                }
            }
            assert(forall|i: int|
                0 <= i < rest.len() && is_tiling_kind(#[trigger] rest[i].kind) ==> rest[i].size_bp
                    <= tiling_sum(rest)) by {
                lemma_tiling_member_le_sum(rest);
            }
            lemma_rescaled_props(rest, num, den, left - ns);
            let rr = spec_rescaled(rest, num, den, left - ns);
            assert(r == seq![size_set(c0, ns)] + rr);
            assert(r[0] == size_set(c0, ns));
            assert(forall|i: int| 1 <= i < r.len() ==> r[i] == rr[i - 1]);
            assert(r.drop_first() =~= rr);
            assert(is_tiling_kind(r[0].kind));
            assert(tiling_sum(r) == tiling_sum(rr) + ns);
        }
    }
}

/// Tiling shares are non-negative.
pub proof fn lemma_tiling_sum_nonneg(s: Seq<Container>)
    ensures
        tiling_sum(s) >= 0,
        0 <= tiling_count(s) <= s.len(),
    decreases s.len(),
{
    if s.len() > 0 {
        lemma_tiling_sum_nonneg(s.drop_first());
    }
}

/// With no tiling children the shares sum to nothing.
pub proof fn lemma_tiling_sum_count_zero(s: Seq<Container>)
    requires
        tiling_count(s) == 0,
    ensures
        tiling_sum(s) == 0,
    decreases s.len(),
{
    if s.len() > 0 {
        lemma_tiling_sum_nonneg(s.drop_first());
        lemma_tiling_sum_count_zero(s.drop_first());
    }
}

/// Every tiling child's share is at most the sum of all tiling shares.
pub proof fn lemma_tiling_member_le_sum(s: Seq<Container>)
    ensures
        forall|i: int|
            0 <= i < s.len() && is_tiling_kind(#[trigger] s[i].kind) ==> s[i].size_bp
                <= tiling_sum(s),
    decreases s.len(),
{
    if s.len() > 0 {
        lemma_tiling_member_le_sum(s.drop_first());
        lemma_tiling_sum_nonneg(s.drop_first());
        assert(forall|i: int| 1 <= i < s.len() ==> s.drop_first()[i - 1] == s[i]);
    }
}

/// Inserting a child adds its share (if it tiles) to the tiling sum.
pub proof fn lemma_tiling_sum_insert(s: Seq<Container>, i: int, c: Container)
    requires
        0 <= i <= s.len(),
    ensures
        tiling_sum(s.insert(i, c)) == tiling_sum(s) + (if is_tiling_kind(c.kind) {
            c.size_bp as int
        } else {
            0int
        }),
        tiling_count(s.insert(i, c)) == tiling_count(s) + (if is_tiling_kind(c.kind) {
            1int
        } else {
            0int
        }),
    decreases i,
{
    if i == 0 {
        assert(s.insert(0, c)[0] == c);
        assert(s.insert(0, c).drop_first() =~= s);
    } else {
        lemma_tiling_sum_insert(s.drop_first(), i - 1, c);
        assert(s.insert(i, c)[0] == s[0]);
        assert(s.insert(i, c).drop_first() =~= s.drop_first().insert(i - 1, c));
    }
}

/// Two child lists that agree pointwise on tiling membership and share have
/// the same tiling sum and count.
pub proof fn lemma_tiling_sum_pointwise(a: Seq<Container>, b: Seq<Container>)
    requires
        a.len() == b.len(),
        forall|i: int|
            0 <= i < a.len() ==> is_tiling_kind((#[trigger] a[i]).kind) == is_tiling_kind(
                b[i].kind,
            ) && a[i].size_bp == b[i].size_bp,
    ensures
        tiling_sum(a) == tiling_sum(b),
        tiling_count(a) == tiling_count(b),
    decreases a.len(),
{
    if a.len() > 0 {
        assert(forall|i: int|
            0 <= i < a.len() - 1 ==> (#[trigger] a.drop_first()[i]) == a[i + 1]);
        lemma_tiling_sum_pointwise(a.drop_first(), b.drop_first());
    }
}

/// Count of tiling children in a child list.
pub fn count_tiling(v: &Vec<Container>) -> (r: usize)
    ensures
        r == tiling_count(v@),
{
    let mut i: usize = 0;
    let mut n: usize = 0;
    proof {
        assert(v@.take(0) =~= Seq::<Container>::empty());
    }
    while i < v.len()
        invariant
            i <= v@.len(),
            n == tiling_count(v@.take(i as int)),
            n <= i,
        decreases v@.len() - i,
    {
        proof {
            lemma_tiling_prefix_step(v@, i as int);
        }
        if kind_is_tiling(v[i].kind) {
            n = n + 1;
        }
        i = i + 1;
    }
    proof {
        assert(v@.take(v@.len() as int) =~= v@);
    }
    n
}

/// Sum of tiling shares in a child list.
pub fn sum_tiling(v: &Vec<Container>) -> (r: u64)
    requires
        forall|i: int|
            0 <= i < v@.len() && is_tiling_kind(#[trigger] v@[i].kind) ==> v@[i].size_bp
                <= FULL_SIZE,
        v@.len() <= 100000,
    ensures
        r == tiling_sum(v@),
{
    let mut i: usize = 0;
    let mut n: u64 = 0;
    proof {
        assert(v@.take(0) =~= Seq::<Container>::empty());
    }
    while i < v.len()
        invariant
            i <= v@.len() <= 100000,
            forall|j: int|
                0 <= j < v@.len() && is_tiling_kind(#[trigger] v@[j].kind) ==> v@[j].size_bp
                    <= FULL_SIZE,
            n == tiling_sum(v@.take(i as int)),
            n <= i * 10000,
        decreases v@.len() - i,
    {
        proof {
            lemma_tiling_prefix_step(v@, i as int);
            assert((i + 1) * 10000 == i * 10000 + 10000) by (nonlinear_arith);
        }
        if kind_is_tiling(v[i].kind) {
            n = n + (v[i].size_bp as u64);
        }
        i = i + 1;
    }
    proof {
        assert(v@.take(v@.len() as int) =~= v@);
    }
    n
}

/// Unfolds the tiling sum and count of a prefix by one element.
proof fn lemma_tiling_prefix_step(s: Seq<Container>, i: int)
    requires
        0 <= i < s.len(),
    ensures
        tiling_sum(s.take(i + 1)) == tiling_sum(s.take(i)) + (if is_tiling_kind(s[i].kind) {
            s[i].size_bp as int
        } else {
            0int
        }),
        tiling_count(s.take(i + 1)) == tiling_count(s.take(i)) + (if is_tiling_kind(s[i].kind) {
            1int
        } else {
            0int
        }),
{
    lemma_tiling_sum_insert(s.take(i), i, s[i]);
    assert(s.take(i + 1) =~= s.take(i).insert(i, s[i]));
}

/// Applies the proportional redistribution to an owned child list.
pub fn rescale_vec(v: Vec<Container>, num: u32, den: u64, left: u64) -> (r: Vec<Container>)
    requires
        num <= FULL_SIZE,
        left <= FULL_SIZE,
        forall|i: int|
            0 <= i < v@.len() && is_tiling_kind(#[trigger] v@[i].kind) ==> v@[i].size_bp
                <= FULL_SIZE,
        den > 0 ==> num * tiling_sum(v@) / (den as int) <= left,
        den > 0 ==> (num <= den || (forall|i: int|
            0 <= i < v@.len() && is_tiling_kind(#[trigger] v@[i].kind) ==> v@[i].size_bp <= den)),
        forall|i: int|
            0 <= i < v@.len() && is_tiling_kind(#[trigger] v@[i].kind) ==> v@[i].size_bp
                <= tiling_sum(v@),
    ensures
        r@ == spec_rescaled(v@, num as int, den as int, left as int),
    decreases v@.len(),
{
    let mut v = v;
    if v.len() == 0 {
        return v;
    }
    let ghost s = v@;
    proof {
        lemma_tiling_sum_nonneg(s.drop_first());
        lemma_tiling_sum_nonneg(s);
        lemma_tiling_member_le_sum(s.drop_first());
        assert(forall|i: int| 1 <= i < s.len() ==> s.drop_first()[i - 1] == s[i]);
    }
    let mut c0 = v.remove(0);
    proof {
        assert(v@ =~= s.drop_first());
    }
    if !kind_is_tiling(c0.kind) {
        let mut rest = rescale_vec(v, num, den, left);
        rest.insert(0, c0);
        proof {
            assert(rest@ =~= seq![c0] + spec_rescaled(
                s.drop_first(),
                num as int,
                den as int,
                left as int,
            ));
        }
        rest
    } else {
        let remaining = count_tiling(&v);
        if remaining == 0 {
            c0.size_bp = left as u32;
            v.insert(0, c0);
            proof {
                assert(clamp_bp(left as int) == left as int);
                assert(v@ =~= seq![size_set(s[0], clamp_bp(left as int))] + s.drop_first());
            }
            v
        } else {
            proof {
                assert(c0.size_bp as int * num as int <= 100000000int) by (nonlinear_arith)
                    requires c0.size_bp <= 10000, num <= 10000, c0.size_bp >= 0, num >= 0;
                assert(c0.size_bp as int * num as int >= 0) by (nonlinear_arith)
                    requires c0.size_bp >= 0, num >= 0;
            }
            let ns: u64 = if den == 0 {
                0
            } else {
                (c0.size_bp as u64) * (num as u64) / den
            };
            proof {
                let d = den as int;
                let sz = c0.size_bp as int;
                let nm = num as int;
                if den > 0 {
                    // the scaled share stays within a full extent
                    if num <= den {
                        assert(sz * nm <= sz * d) by (nonlinear_arith)
                            requires nm <= d, sz >= 0;
                        vstd::arithmetic::div_mod::lemma_div_is_ordered(sz * nm, sz * d, d);
                        vstd::arithmetic::div_mod::lemma_div_multiples_vanish(sz, d);
                    } else {
                        assert(sz <= d);
                        assert(sz * nm <= d * nm) by (nonlinear_arith)
                            requires sz <= d, nm >= 0;
                        vstd::arithmetic::div_mod::lemma_div_is_ordered(sz * nm, d * nm, d);
                        assert(d * nm / d == nm) by {
                            vstd::arithmetic::div_mod::lemma_div_multiples_vanish(nm, d);
                            assert(d * nm == nm * d) by (nonlinear_arith);
                        }
                    }
                    // the remaining budget still covers the tail's scaled shares
                    assert(nm * tiling_sum(s.drop_first()) >= 0) by (nonlinear_arith)
                        requires nm >= 0, tiling_sum(s.drop_first()) >= 0;
                    lemma_div_superadd(nm * tiling_sum(s.drop_first()), sz * nm, d);
                    assert(nm * tiling_sum(s.drop_first()) + sz * nm == nm * tiling_sum(s))
                        by (nonlinear_arith)
                        requires tiling_sum(s) == tiling_sum(s.drop_first()) + sz;
                    assert(sz * nm == nm * sz) by (nonlinear_arith);
                    vstd::arithmetic::div_mod::lemma_div_is_ordered(
                        0,
                        nm * tiling_sum(s.drop_first()),
                        d,
                    );
                }
                assert(ns as int == spec_new_size(sz, nm, d));
                assert(ns <= left);
            }
            let old_size = c0.size_bp;
            c0.size_bp = ns as u32;
            let mut rest = rescale_vec(v, num, den, left - ns);
            rest.insert(0, c0);
            proof {
                assert(rest@ =~= seq![size_set(s[0], spec_new_size(
                    old_size as int,
                    num as int,
                    den as int,
                ))] + spec_rescaled(
                    s.drop_first(),
                    num as int,
                    den as int,
                    left as int - spec_new_size(old_size as int, num as int, den as int),
                ));
            }
            rest
        }
    }
}

/// Index facts of an insertion.
pub proof fn lemma_insert_index(s: Seq<Container>, i: int, a: Container)
    requires
        0 <= i <= s.len(),
    ensures
        s.insert(i, a).len() == s.len() + 1,
        s.insert(i, a)[i] == a,
        forall|j: int| 0 <= j < i ==> s.insert(i, a)[j] == s[j],
        forall|j: int| i < j <= s.len() ==> s.insert(i, a)[j] == s[j - 1],
{
}

/// A size change within the representable band keeps a subtree well formed.
pub proof fn lemma_size_set_wf(c: Container, v: int)
    requires
        tree_wf(c),
        0 <= v <= FULL_SIZE,
    ensures
        tree_wf(size_set(c, v)),
        size_set(c, v).id == c.id,
        size_set(c, v).kind == c.kind,
        size_set(c, v).children == c.children,
        size_set(c, v).focus_order == c.focus_order,
{
    let r = size_set(c, v);
    assert(node_wf(r)) by {
        assert(r.children@ == c.children@);
        assert(r.focus_order@ == c.focus_order@);
    }
}

/// A well-formed parent is never a window, so its child-count clause stays
/// vacuous after a child is added.
pub proof fn lemma_parent_not_window(p: ContainerKind, c: ContainerKind)
    requires
        child_kind_ok(p, c),
    ensures
        !is_window_kind(p),
{
}

/// The new child list after an attach at `idx`: a non-tiling child is
/// inserted as it is; the first tiling child takes the full extent; a later
/// tiling child takes `1/(n+1)` of it while its `n` tiling siblings are
/// scaled by `n/(n+1)`, the last absorbing the rounding difference.
pub open spec fn spec_attached_children(s: Seq<Container>, child: Container, idx: int) -> Seq<
    Container,
> {
    if !is_tiling_kind(child.kind) {
        s.insert(idx, child)
    } else if tiling_count(s) == 0 {
        s.insert(idx, size_set(child, FULL_SIZE as int))
    } else {
        let n = tiling_count(s);
        let nsz = FULL_SIZE as int / (n + 1);
        spec_rescaled(s, n, n + 1, FULL_SIZE - nsz).insert(idx, size_set(child, nsz))
    }
}

/// Inserts `child` into `parent`'s child list at `index` and into the tail
/// of its focus order, scaling the existing tiling shares down so that the
/// sum invariant is restored exactly.
pub fn attach_to(parent: Container, child: Container, index: usize) -> (r: Container)
    requires
        tree_wf(parent),
        tree_wf(child),
        !spec_contains(parent, child.id),
        child_kind_ok(parent.kind, child.kind),
        index <= parent.children@.len(),
        parent.children@.len() < 10000,
    ensures
        tree_wf(r),
        r.children@ == spec_attached_children(parent.children@, child, index as int),
        r.focus_order@ == parent.focus_order@.push(child.id),
        r == (Container { children: r.children, focus_order: r.focus_order, ..parent }),
        spec_contains(r, child.id),
        r.children@.len() == parent.children@.len() + 1,
    decreases parent.children@.len(),
{
    broadcast use vstd::seq_lib::to_multiset_build, vstd::seq_lib::to_multiset_insert;

    let ghost s = parent.children@;
    let ghost target = spec_attached_children(s, child, index as int);
    proof {
        lemma_tiling_sum_nonneg(s);
        lemma_tiling_member_le_sum(s);
        lemma_parent_not_window(parent.kind, child.kind);
        assert(forall|k: int| 0 <= k < s.len() ==> !spec_contains(#[trigger] s[k], child.id)) by {
            assert(!seq_contains(s, child.id));
        }
        assert(forall|k: int| 0 <= k < s.len() ==> (#[trigger] s[k]).id != child.id);
    }
    let mut p = parent;
    let mut child = child;
    let kids = p.children;
    p.children = Vec::new();
    let n = count_tiling(&kids);
    let mut kids2: Vec<Container>;
    let ghost mut resc: Seq<Container> = s;
    proof {
        assert(trees_wf(s));
        assert(forall|k: int| 0 <= k < s.len() ==> tree_wf(#[trigger] s[k]));
    }
    if kind_is_tiling(child.kind) {
        if n == 0 {
            child.size_bp = FULL_SIZE;
            kids2 = kids;
        } else {
            let n32 = n as u32;
            let nsz = FULL_SIZE / (n32 + 1);
            proof {
                let ni = n as int;
                let f = FULL_SIZE as int;
                vstd::arithmetic::div_mod::lemma_div_is_ordered(0, f, ni + 1);
                assert(f <= f * (ni + 1)) by (nonlinear_arith)
                    requires ni >= 1, f == 10000;
                vstd::arithmetic::div_mod::lemma_div_is_ordered(f, f * (ni + 1), ni + 1);
                vstd::arithmetic::div_mod::lemma_div_multiples_vanish(f, ni + 1);
                assert((ni + 1) * f == f * (ni + 1)) by (nonlinear_arith);
                // budget: n * full / (n + 1) <= full - full / (n + 1)
                assert(ni * f >= 0) by (nonlinear_arith)
                    requires ni >= 0, f >= 0;
                lemma_div_superadd(ni * f, f, ni + 1);
                assert(ni * f + f == (ni + 1) * f) by (nonlinear_arith);
                assert(tiling_sum(s) == f);
                assert(ni * tiling_sum(s) == ni * f) by (nonlinear_arith)
                    requires tiling_sum(s) == f;
            }
            child.size_bp = nsz;
            kids2 = rescale_vec(kids, n32, (n32 + 1) as u64, (FULL_SIZE - nsz) as u64);
            proof {
                lemma_rescaled_props(s, n as int, n as int + 1, FULL_SIZE - nsz as int);
                resc = kids2@;
                assert(resc == spec_rescaled(s, n as int, n as int + 1, FULL_SIZE - nsz as int));
                assert forall|k: int| 0 <= k < s.len() implies (#[trigger] resc[k]).id == s[k].id
                    && resc[k].kind == s[k].kind && (is_tiling_kind(resc[k].kind)
                    ==> resc[k].size_bp <= FULL_SIZE) && tree_wf(resc[k]) by {
                    if resc[k] == s[k] {
                    } else {
                        assert(resc[k] == size_set(s[k], resc[k].size_bp as int));
                        lemma_size_set_wf(s[k], resc[k].size_bp as int);
                    }
                }
            }
        }
    } else {
        kids2 = kids;
    }
    proof {
        assert(kids2@ == resc);
        assert(resc.len() == s.len());
        assert(forall|k: int|
            0 <= k < s.len() ==> (#[trigger] resc[k]).id == s[k].id && resc[k].kind == s[k].kind
                && (is_tiling_kind(resc[k].kind) ==> resc[k].size_bp <= FULL_SIZE) && tree_wf(
                resc[k],
            ));
    }
    let child_id = child.id;
    kids2.insert(index, child);
    p.children = kids2;
    p.focus_order.push(child_id);
    proof {
        lemma_insert_index(resc, index as int, child);
        assert(p.children@ == target);
        // focus order stays a permutation of the child order
        assert(child_ids(p.children@).to_multiset() == p.focus_order@.to_multiset()) by {
            assert(child_ids(resc) =~= child_ids(s));
            assert(child_ids(p.children@) =~= child_ids(resc).insert(index as int, child.id));
            assert(child_ids(resc).insert(index as int, child.id).to_multiset() == child_ids(
                resc,
            ).to_multiset().insert(child.id));
            assert(p.focus_order@ == parent.focus_order@.push(child.id));
        }
        // shares still sum to a full extent
        assert(tiling_count(p.children@) > 0 ==> tiling_sum(p.children@) == FULL_SIZE) by {
            lemma_tiling_sum_insert(resc, index as int, child);
            if is_tiling_kind(child.kind) {
                if n == 0 {
                    lemma_tiling_sum_count_zero(s);
                    lemma_tiling_sum_pointwise(resc, s);
                } else {
                    lemma_rescaled_props(s, n as int, n as int + 1, FULL_SIZE - (
                    FULL_SIZE as int / (n as int + 1)));
                }
            } else {
                lemma_tiling_sum_pointwise(resc, s);
            }
        }
        assert(node_wf(p)) by {
            assert(forall|k: int|
                0 <= k < p.children@.len() ==> child_kind_ok(
                    p.kind,
                    (#[trigger] p.children@[k]).kind,
                ));
            assert(forall|k: int, j: int|
                0 <= k < j < p.children@.len() ==> (#[trigger] p.children@[k]).id != (
                #[trigger] p.children@[j]).id);
        }
        assert(trees_wf(p.children@)) by {
            if is_tiling_kind(child.kind) {
                lemma_size_set_wf(child, child.size_bp as int);
            }
            assert(tree_wf(p.children@[index as int]));
            assert(forall|k: int|
                0 <= k < p.children@.len() ==> tree_wf(#[trigger] p.children@[k]));
        }
        assert(spec_contains(p, child.id)) by {
            assert(p.children@[index as int].id == child.id);
            assert(spec_contains(p.children@[index as int], child.id));
            assert(seq_contains(p.children@, child.id));
        }
    }
    p
}

/// Elements of a redistribution: same identifiers, kinds and subtrees as
/// the originals, well formed, with bounded shares, and the same tiling
/// membership.
pub proof fn lemma_rescaled_elements(s: Seq<Container>, num: int, den: int, left: int)
    requires
        0 <= num <= FULL_SIZE,
        0 <= left <= FULL_SIZE,
        den >= 0,
        den > 0 ==> num * tiling_sum(s) / den <= left,
        den > 0 ==> (num <= den || (forall|i: int|
            0 <= i < s.len() && is_tiling_kind(#[trigger] s[i].kind) ==> s[i].size_bp <= den)),
        forall|i: int|
            0 <= i < s.len() && is_tiling_kind(#[trigger] s[i].kind) ==> s[i].size_bp <= FULL_SIZE,
        forall|i: int| 0 <= i < s.len() && is_tiling_kind(#[trigger] s[i].kind) ==> s[i].size_bp
            <= tiling_sum(s),
        trees_wf(s),
    ensures
        spec_rescaled(s, num, den, left).len() == s.len(),
        forall|k: int|
            0 <= k < s.len() ==> {
                let r = #[trigger] spec_rescaled(s, num, den, left)[k];
                &&& r.id == s[k].id
                &&& r.kind == s[k].kind
                &&& (is_tiling_kind(r.kind) ==> r.size_bp <= FULL_SIZE)
                &&& tree_wf(r)
            },
        tiling_count(s) > 0 ==> tiling_sum(spec_rescaled(s, num, den, left)) == left,
        tiling_count(spec_rescaled(s, num, den, left)) == tiling_count(s),
        child_ids(spec_rescaled(s, num, den, left)) == child_ids(s),
{
    lemma_rescaled_props(s, num, den, left);
    let r = spec_rescaled(s, num, den, left);
    assert forall|k: int| 0 <= k < s.len() implies {
        let rk = #[trigger] r[k];
        &&& rk.id == s[k].id
        &&& rk.kind == s[k].kind
        &&& (is_tiling_kind(rk.kind) ==> rk.size_bp <= FULL_SIZE)
        &&& tree_wf(rk)
    } by {
        assert(tree_wf(s[k]));
        if r[k] == s[k] {
        } else {
            assert(r[k] == size_set(s[k], r[k].size_bp as int));
            lemma_size_set_wf(s[k], r[k].size_bp as int);
        }
    }
    lemma_tiling_count_pointwise(r, s);
    assert(child_ids(r) =~= child_ids(s));
}

/// Two child lists that agree pointwise on tiling membership have the same
/// tiling count.
pub proof fn lemma_tiling_count_pointwise(a: Seq<Container>, b: Seq<Container>)
    requires
        a.len() == b.len(),
        forall|i: int|
            0 <= i < a.len() ==> is_tiling_kind((#[trigger] a[i]).kind) == is_tiling_kind(
                b[i].kind,
            ),
    ensures
        tiling_count(a) == tiling_count(b),
    decreases a.len(),
{
    if a.len() > 0 {
        assert(forall|i: int|
            0 <= i < a.len() - 1 ==> (#[trigger] a.drop_first()[i]) == a[i + 1]);
        lemma_tiling_count_pointwise(a.drop_first(), b.drop_first());
    }
}

/// Budget fact for a redistribution whose denominator is the current sum:
/// the scaled total never exceeds the numerator itself.
pub proof fn lemma_budget_self(num: int, den: int)
    requires
        num >= 0,
        den >= 0,
    ensures
        den > 0 ==> num * den / den <= num,
{
    if den > 0 {
        vstd::arithmetic::div_mod::lemma_div_multiples_vanish(num, den);
        assert(num * den == den * num) by (nonlinear_arith);
    }
}

/// The new child list after detaching the child at `i`: it is removed, and
/// if it tiled and tiling siblings remain their shares are renormalized so
/// that they again sum to a full extent.
pub open spec fn spec_detached_children(s: Seq<Container>, i: int) -> Seq<Container> {
    let rem = s.remove(i);
    if is_tiling_kind(s[i].kind) && tiling_count(rem) > 0 {
        spec_rescaled(rem, FULL_SIZE as int, tiling_sum(rem), FULL_SIZE as int)
    } else {
        rem
    }
}

/// A focus order with the first occurrence of an identifier removed.
pub open spec fn spec_focus_removed(fo: Seq<u128>, id: u128) -> Seq<u128> {
    match fo.index_of_first(id) {
        Some(k) => fo.remove(k),
        None => fo,
    }
}

/// Removes the child at `index` from the parent's child list and focus
/// order and renormalizes the remaining tiling shares back to a full
/// extent. Returns the parent and the detached child. The renormalization
/// rounds down per sibling with the last absorbing the difference, so it
/// need not restore the exact shares that stood before a preceding attach —
/// each share can land one basis point off. A parent left as a degenerate
/// split is flattened by its own parent through `flatten_split_container`;
/// callers run that after a detach.
pub fn detach_from(parent: Container, index: usize) -> (r: (Container, Container))
    requires
        tree_wf(parent),
        index < parent.children@.len(),
        parent.children@.len() <= 100000,
    ensures
        r.1 == parent.children@[index as int],
        tree_wf(r.0),
        tree_wf(r.1),
        r.0.children@ == spec_detached_children(parent.children@, index as int),
        r.0.focus_order@ == spec_focus_removed(parent.focus_order@, r.1.id),
        r.0 == (Container { children: r.0.children, focus_order: r.0.focus_order, ..parent }),
        r.0.children@.len() == parent.children@.len() - 1,
{
    broadcast use vstd::seq_lib::to_multiset_remove, vstd::seq_lib::to_multiset_insert;

    let ghost s = parent.children@;
    let mut p = parent;
    let mut kids = p.children;
    p.children = Vec::new();
    proof {
        assert(trees_wf(s));
        assert(forall|k: int| 0 <= k < s.len() ==> tree_wf(#[trigger] s[k]));
    }
    let removed = kids.remove(index);
    let ghost rem = s.remove(index as int);
    proof {
        // the remaining children keep their invariants
        assert(forall|k: int| 0 <= k < rem.len() ==> #[trigger] rem[k] == (if k < index as int {
            s[k]
        } else {
            s[k + 1]
        }));
        lemma_tiling_sum_insert(rem, index as int, removed);
        assert(rem.insert(index as int, removed) =~= s);
        lemma_tiling_sum_nonneg(rem);
        lemma_tiling_member_le_sum(rem);
    }
    let kids2: Vec<Container>;
    if kind_is_tiling(removed.kind) && count_tiling(&kids) > 0 {
        let den = sum_tiling(&kids);
        proof {
            lemma_budget_self(FULL_SIZE as int, den as int);
        }
        kids2 = rescale_vec(kids, FULL_SIZE, den, FULL_SIZE as u64);
        proof {
            lemma_rescaled_elements(rem, FULL_SIZE as int, den as int, FULL_SIZE as int);
        }
    } else {
        kids2 = kids;
    }
    // drop the detached child from the focus order
    proof {
        lemma_focus_has_detached(parent, index as int);
    }
    let k = find_focus_index(&p.focus_order, removed.id);
    proof {
        let fo = parent.focus_order@;
        fo.index_of_first_ensures(removed.id);
        assert(fo.contains(removed.id)) by {
            let j = choose|j: int| 0 <= j < fo.len() && fo[j] == removed.id;
            assert(fo[j] == removed.id);
        }
        let ki = fo.index_of_first(removed.id).unwrap();
        assert(fo[ki] == removed.id);
        if ki < k as int {
            assert(fo[ki] != removed.id);
        } else if (k as int) < ki {
            assert(fo[k as int] != removed.id);
        }
        assert(fo.index_of_first(removed.id) == Some(k as int));
    }
    p.focus_order.remove(k);
    p.children = kids2;
    proof {
        assert(p.children@ == spec_detached_children(s, index as int));
        let ids_after = child_ids(p.children@);
        assert(ids_after =~= child_ids(s).remove(index as int));
        assert(child_ids(s)[index as int] == removed.id);
        assert(p.focus_order@.to_multiset() == ids_after.to_multiset()) by {
            assert(child_ids(s).remove(index as int).to_multiset() == child_ids(
                s,
            ).to_multiset().remove(removed.id));
            assert(parent.focus_order@.remove(k as int).to_multiset()
                == parent.focus_order@.to_multiset().remove(removed.id));
        }
        assert(tiling_count(p.children@) > 0 ==> tiling_sum(p.children@) == FULL_SIZE) by {
            if is_tiling_kind(removed.kind) && tiling_count(rem) > 0 {
            } else if is_tiling_kind(removed.kind) {
                lemma_tiling_sum_nonneg(rem);
            } else {
                assert(tiling_sum(rem) == tiling_sum(s));
                assert(tiling_count(rem) == tiling_count(s));
            }
        }
        assert(node_wf(p));
        assert(trees_wf(p.children@)) by {
            if is_tiling_kind(removed.kind) && tiling_count(rem) > 0 {
            } else {
                assert(forall|j: int| 0 <= j < rem.len() ==> tree_wf(#[trigger] rem[j]));
            }
        }
    }
    (p, removed)
}

/// First index of an identifier that is known to stand in a focus order.
fn find_focus_index(fo: &Vec<u128>, id: u128) -> (r: usize)
    requires
        exists|j: int| 0 <= j < fo@.len() && fo@[j] == id,
    ensures
        r < fo@.len(),
        fo@[r as int] == id,
        forall|j: int| 0 <= j < r ==> fo@[j] != id,
{
    let mut i: usize = 0;
    while i < fo.len()
        invariant
            i <= fo@.len(),
            forall|j: int| 0 <= j < i ==> fo@[j] != id,
            exists|j: int| 0 <= j < fo@.len() && fo@[j] == id,
        decreases fo@.len() - i,
    {
        if fo[i] == id {
            return i;
        }
        i = i + 1;
    }
    proof {
        let j = choose|j: int| 0 <= j < fo@.len() && fo@[j] == id;
        assert(fo@[j] != id);
    }
    0
}

/// In a well-formed parent, a child's identifier stands in the focus order.
proof fn lemma_focus_has_detached(parent: Container, i: int)
    requires
        node_wf(parent),
        0 <= i < parent.children@.len(),
    ensures
        exists|j: int|
            0 <= j < parent.focus_order@.len() && parent.focus_order@[j] == parent.children@[i].id,
{
    let ids = child_ids(parent.children@);
    parent.focus_order@.to_multiset_ensures();
    ids.to_multiset_ensures();
    assert(ids[i] == parent.children@[i].id);
    assert(ids.contains(parent.children@[i].id));
    assert(ids.to_multiset().count(parent.children@[i].id) > 0);
    assert(parent.focus_order@.contains(parent.children@[i].id));
    let j = choose|j: int|
        0 <= j < parent.focus_order@.len() && parent.focus_order@[j] == parent.children@[i].id;
    assert(parent.focus_order@[j] == parent.children@[i].id);
}

/// The new child list after resizing the tiling child at `i` to share `t`:
/// it takes `t`, and its tiling siblings share the rest in proportion to
/// their old shares, the last absorbing the rounding difference.
pub open spec fn spec_resized_children(s: Seq<Container>, i: int, t: int) -> Seq<Container> {
    let rem = s.remove(i);
    spec_rescaled(rem, FULL_SIZE - t, tiling_sum(rem), FULL_SIZE - t).insert(
        i,
        size_set(s[i], t),
    )
}

/// Sets the tiling child at `index` to the share `t` and redistributes the
/// difference proportionally across its tiling siblings.
pub fn resize_in(parent: Container, index: usize, t: u32) -> (r: Container)
    requires
        tree_wf(parent),
        index < parent.children@.len(),
        is_tiling_kind(parent.children@[index as int].kind),
        t <= FULL_SIZE,
        tiling_count(parent.children@) >= 2,
        parent.children@.len() <= 100000,
    ensures
        tree_wf(r),
        r.children@ == spec_resized_children(parent.children@, index as int, t as int),
        r.children@[index as int].size_bp == t,
        r.children@[index as int].id == parent.children@[index as int].id,
        r == (Container { children: r.children, ..parent }),
        r.children@.len() == parent.children@.len(),
{
    let ghost s = parent.children@;
    let mut p = parent;
    let mut kids = p.children;
    p.children = Vec::new();
    proof {
        assert(trees_wf(s));
        assert(forall|k: int| 0 <= k < s.len() ==> tree_wf(#[trigger] s[k]));
    }
    let mut removed = kids.remove(index);
    let ghost rem = s.remove(index as int);
    proof {
        assert(forall|k: int| 0 <= k < rem.len() ==> #[trigger] rem[k] == (if k < index as int {
            s[k]
        } else {
            s[k + 1]
        }));
        lemma_tiling_sum_insert(rem, index as int, removed);
        assert(rem.insert(index as int, removed) =~= s);
        lemma_tiling_sum_nonneg(rem);
        lemma_tiling_member_le_sum(rem);
        lemma_budget_self(FULL_SIZE - t as int, tiling_sum(rem));
    }
    let den = sum_tiling(&kids);
    let kids2 = rescale_vec(kids, FULL_SIZE - t, den, (FULL_SIZE - t) as u64);
    proof {
        lemma_rescaled_elements(rem, FULL_SIZE - t as int, den as int, FULL_SIZE - t as int);
    }
    removed.size_bp = t;
    let mut kids2 = kids2;
    kids2.insert(index, removed);
    p.children = kids2;
    proof {
        let resc = spec_rescaled(rem, FULL_SIZE - t as int, den as int, FULL_SIZE - t as int);
        lemma_insert_index(resc, index as int, size_set(s[index as int], t as int));
        assert(p.children@ == spec_resized_children(s, index as int, t as int));
        assert(child_ids(p.children@) =~= child_ids(s));
        assert(p.focus_order@.to_multiset() == child_ids(p.children@).to_multiset());
        assert(tiling_sum(p.children@) == FULL_SIZE) by {
            lemma_tiling_sum_insert(resc, index as int, size_set(s[index as int], t as int));
        }
        assert(tiling_count(p.children@) > 0) by {
            lemma_tiling_sum_insert(resc, index as int, size_set(s[index as int], t as int));
        }
        assert(node_wf(p)) by {
            assert(forall|k: int|
                0 <= k < p.children@.len() ==> child_kind_ok(
                    p.kind,
                    (#[trigger] p.children@[k]).kind,
                ));
            assert(forall|k: int, j: int|
                0 <= k < j < p.children@.len() ==> (#[trigger] p.children@[k]).id != (
                #[trigger] p.children@[j]).id);
        }
        assert(trees_wf(p.children@)) by {
            lemma_size_set_wf(s[index as int], t as int);
            assert(forall|k: int|
                0 <= k < p.children@.len() ==> tree_wf(#[trigger] p.children@[k]));
        }
    }
    p
}

/// Promotes the only child of the degenerate split at `index` into its
/// place, inheriting the split's share; the split itself is destroyed.
pub fn flatten_in(parent: Container, index: usize) -> (r: Container)
    requires
        tree_wf(parent),
        index < parent.children@.len(),
        parent.children@[index as int].kind == ContainerKind::Split,
        parent.children@[index as int].children@.len() == 1,
        is_tiling_kind(parent.children@[index as int].children@[0].kind),
        forall|j: int|
            0 <= j < parent.children@.len() && j != index ==> (#[trigger] parent.children@[j]).id
                != parent.children@[index as int].children@[0].id,
    ensures
        tree_wf(r),
        r.children@ == parent.children@.update(
            index as int,
            size_set(
                parent.children@[index as int].children@[0],
                parent.children@[index as int].size_bp as int,
            ),
        ),
        r == (Container { children: r.children, focus_order: r.focus_order, ..parent }),
        r.children@.len() == parent.children@.len(),
    decreases parent.children@.len(),
{
    broadcast use vstd::seq_lib::to_multiset_remove, vstd::seq_lib::to_multiset_insert;

    let ghost s = parent.children@;
    let mut p = parent;
    let mut kids = p.children;
    p.children = Vec::new();
    proof {
        assert(trees_wf(s));
        assert(forall|k: int| 0 <= k < s.len() ==> tree_wf(#[trigger] s[k]));
        assert(tree_wf(s[index as int]));
    }
    let mut split = kids.remove(index);
    proof {
        assert(trees_wf(split.children@));
        assert(tree_wf(split.children@[0]));
    }
    let mut g = split.children.remove(0);
    g.size_bp = split.size_bp;
    let ghost g2 = size_set(s[index as int].children@[0], s[index as int].size_bp as int);
    proof {
        assert(g == g2);
        lemma_size_set_wf(s[index as int].children@[0], s[index as int].size_bp as int);
    }
    let g_id = g.id;
    kids.insert(index, g);
    p.children = kids;
    // the promoted child takes the split's place in the focus order
    proof {
        lemma_focus_has_detached(parent, index as int);
    }
    let k = find_focus_index(&p.focus_order, split.id);
    p.focus_order.remove(k);
    p.focus_order.insert(k, g_id);
    proof {
        assert(p.children@ =~= s.update(index as int, g2));
        assert(p.children@ =~= s.remove(index as int).insert(index as int, g2));
        assert(p.focus_order@ =~= parent.focus_order@.remove(k as int).insert(k as int, g_id));
        assert(child_ids(p.children@) =~= child_ids(s).remove(index as int).insert(
            index as int,
            g_id,
        ));
        assert(child_ids(s)[index as int] == split.id);
        // both multisets change by the same removal and insertion
        assert(p.focus_order@.to_multiset() == child_ids(p.children@).to_multiset()) by {
            assert(parent.focus_order@[k as int] == split.id);
            assert(parent.focus_order@.remove(k as int).to_multiset()
                == parent.focus_order@.to_multiset().remove(split.id));
            assert(child_ids(s).remove(index as int).to_multiset() == child_ids(
                s,
            ).to_multiset().remove(split.id));
        }
        assert(tiling_count(p.children@) == tiling_count(s) && tiling_sum(p.children@)
            == tiling_sum(s)) by {
            lemma_tiling_sum_pointwise(p.children@, s);
        }
        assert(child_kind_ok(p.kind, g2.kind)) by {
            assert(child_kind_ok(parent.kind, ContainerKind::Split));
        }
        assert(node_wf(p)) by {
            assert(forall|a: int, b: int|
                0 <= a < b < p.children@.len() ==> (#[trigger] p.children@[a]).id != (
                #[trigger] p.children@[b]).id);
        }
        assert(trees_wf(p.children@)) by {
            assert(forall|a: int| 0 <= a < p.children@.len() ==> tree_wf(#[trigger] p.children@[a]));
        }
    }
    p
}

/// A focus order with the first occurrence of an identifier moved to the
/// head; without the identifier it is unchanged.
pub open spec fn spec_move_front(fo: Seq<u128>, id: u128) -> Seq<u128> {
    match fo.index_of_first(id) {
        Some(k) => seq![id] + fo.remove(k),
        None => fo,
    }
}

/// Focusing what is already focused changes nothing: moving an identifier
/// to the head of a focus order twice equals moving it once.
pub proof fn lemma_move_front_idempotent(fo: Seq<u128>, id: u128)
    ensures
        spec_move_front(spec_move_front(fo, id), id) == spec_move_front(fo, id),
{
    fo.index_of_first_ensures(id);
    match fo.index_of_first(id) {
        Some(k) => {
            let once = seq![id] + fo.remove(k);
            assert(once[0] == id);
            once.index_of_first_ensures(id);
            assert(once.contains(id));
            let k2 = once.index_of_first(id).unwrap();
            assert(once[k2] == id);
            assert(k2 == 0) by {
                if k2 > 0 {
                    assert(once[0] != id);
                }
            }
            assert(once.remove(0) =~= fo.remove(k));
            assert(spec_move_front(once, id) == seq![id] + fo.remove(k));
        },
        None => {
            assert(!fo.contains(id));
            fo.index_of_first_ensures(id);
        },
    }
}

/// Moves the child with the given identifier to the head of the parent's
/// focus order, making its subtree the most recently focused one.
pub fn focus_child(parent: Container, child_id: u128) -> (r: Container)
    requires
        tree_wf(parent),
        exists|j: int|
            0 <= j < parent.children@.len() && (#[trigger] parent.children@[j]).id == child_id,
    ensures
        tree_wf(r),
        r.focus_order@ == spec_move_front(parent.focus_order@, child_id),
        r == (Container { focus_order: r.focus_order, ..parent }),
{
    broadcast use vstd::seq_lib::to_multiset_remove, vstd::seq_lib::to_multiset_insert;

    let mut p = parent;
    proof {
        let j = choose|j: int|
            0 <= j < parent.children@.len() && (#[trigger] parent.children@[j]).id == child_id;
        lemma_focus_has_detached(parent, j);
    }
    let k = find_focus_index(&p.focus_order, child_id);
    p.focus_order.remove(k);
    p.focus_order.insert(0, child_id);
    proof {
        let fo = parent.focus_order@;
        fo.index_of_first_ensures(child_id);
        assert(fo.contains(child_id)) by {
            assert(fo[k as int] == child_id);
        }
        let ki = fo.index_of_first(child_id).unwrap();
        if ki < k as int {
            assert(fo[ki] != child_id);
        } else if (k as int) < ki {
            assert(fo[k as int] != child_id);
        }
        assert(p.focus_order@ =~= seq![child_id] + fo.remove(k as int));
        assert(p.focus_order@ =~= fo.remove(k as int).insert(0, child_id));
        assert(p.focus_order@.to_multiset() == fo.to_multiset()) by {
            assert(fo.remove(k as int).to_multiset() == fo.to_multiset().remove(child_id));
            assert(fo.remove(k as int).insert(0, child_id).to_multiset() == fo.remove(
                k as int,
            ).to_multiset().insert(child_id));
            assert(fo.to_multiset().remove(child_id).insert(child_id) =~= fo.to_multiset()) by {
                broadcast use vstd::seq_lib::group_to_multiset_ensures;

                assert(fo.to_multiset().count(child_id) > 0);
            }
        }
        assert(node_wf(p));
    }
    p
}

/// Walks from the container with the target identifier up to this node,
/// moving the subtree holding the target to the head of every focus order
/// on the way — exactly as `focus_rel` pins it. Returns whether the target
/// was found; without it the tree is unchanged.
pub fn set_focused_descendant(tree: Container, target: u128) -> (r: (Container, bool))
    requires
        tree_wf(tree),
    ensures
        tree_wf(r.0),
        r.1 == spec_contains(tree, target),
        focus_rel(tree, target, r.0),
        r.0.id == tree.id,
        r.0.kind == tree.kind,
        r.0.size_bp == tree.size_bp,
        r.0.children@.len() == tree.children@.len(),
        !r.1 ==> r.0 == tree,
    decreases crate::tree::tree_size(tree),
{
    if tree.id == target {
        return (tree, true);
    }
    let ghost s = tree.children@;
    proof {
        assert(trees_wf(s));
        assert(forall|k: int| 0 <= k < s.len() ==> tree_wf(#[trigger] s[k]));
    }
    let mut i: usize = 0;
    let n = tree.children.len();
    let mut found_at: usize = 0;
    let mut found = false;
    while i < n && !found
        invariant
            n == tree.children@.len(),
            i <= n,
            !found ==> forall|j: int| 0 <= j < i ==> !spec_contains(#[trigger] s[j], target),
            found ==> found_at < i <= n && spec_contains(s[found_at as int], target) && (forall|
                j: int,
            |
                0 <= j < found_at ==> !spec_contains(#[trigger] s[j], target)),
            tree_wf(tree),
            s == tree.children@,
        decreases n - i,
    {
        if tree.children[i].contains_id(target) {
            found = true;
            found_at = i;
        }
        i = i + 1;
    }
    if !found {
        proof {
            assert(!seq_contains(s, target));
        }
        return (tree, false);
    }
    proof {
        crate::tree::lemma_tree_size_child(s, found_at as int);
    }
    let mut p = tree;
    let mut kids = p.children;
    p.children = Vec::new();
    let child = kids.remove(found_at);
    let (child2, ok) = set_focused_descendant(child, target);
    let ghost cv = child2;
    kids.insert(found_at, child2);
    p.children = kids;
    proof {
        assert(p.children@ =~= s.update(found_at as int, cv));
        assert(child_ids(p.children@) =~= child_ids(s));
        assert(tiling_sum(p.children@) == tiling_sum(s) && tiling_count(p.children@)
            == tiling_count(s)) by {
            lemma_tiling_sum_pointwise(p.children@, s);
        }
        assert(node_wf(p));
        assert(trees_wf(p.children@)) by {
            assert(forall|a: int| 0 <= a < p.children@.len() ==> tree_wf(#[trigger] p.children@[a]));
        }
        assert(exists|j: int|
            0 <= j < p.children@.len() && (#[trigger] p.children@[j]).id == cv.id) by {
            assert(p.children@[found_at as int].id == cv.id);
        }
    }
    let cid = p.children[found_at].id;
    let p2 = focus_child(p, cid);
    proof {
        assert(spec_contains(tree, target)) by {
            assert(spec_contains(s[found_at as int], target));
        }
        assert(focus_rel(tree, target, p2)) by {
            assert(tree.id != target);
            assert(seq_contains(s, target)) by {
                assert(spec_contains(s[found_at as int], target));
            }
            assert(p.children@ == s.update(found_at as int, cv));
            lemma_focus_kids_update(s, target, found_at as int, cv);
            assert(p2.children@ == p.children@);
            lemma_first_containing_at(s, target, found_at as int);
            assert(cid == cv.id);
            assert(cv.id == s[found_at as int].id);
            assert(p2.focus_order@ == spec_move_front(tree.focus_order@, cid));
            assert(p2 == (Container { children: p2.children, focus_order: p2.focus_order, ..tree }));
        }
    }
    (p2, true)
}

/// Whether a requested share lies in the band a resize allows: at least the
/// configured minimum, and small enough to leave each tiling sibling the
/// minimum.
pub open spec fn spec_resize_in_bounds(s: Seq<Container>, i: int, t: int, min: int) -> bool {
    min <= t <= FULL_SIZE - min * (tiling_count(s) - 1)
}

/// Resizes the tiling child at `index` to `new_size_bp`, clamping to the
/// allowed band: a request below the minimum share, or so large that the
/// siblings would fall below it, is refused and the tree is unchanged. A
/// child without tiling siblings keeps the full extent and nothing changes.
pub fn resize_tiling_container(
    parent: Container,
    index: usize,
    new_size_bp: u32,
    min_size_bp: u32,
) -> (r: (Container, Result<(), WmError>))
    requires
        tree_wf(parent),
        parent.children@.len() <= 100000,
        min_size_bp <= FULL_SIZE,
    ensures
        tree_wf(r.0),
        r.1 is Err ==> r.0 == parent,
        index >= parent.children@.len() ==> r.1 == Err::<(), WmError>(WmError::BadIndex),
        index < parent.children@.len() && !is_tiling_kind(parent.children@[index as int].kind)
            ==> r.1 == Err::<(), WmError>(WmError::KindMismatch),
        index < parent.children@.len() && is_tiling_kind(parent.children@[index as int].kind)
            && tiling_count(parent.children@) >= 2 && !spec_resize_in_bounds(
            parent.children@,
            index as int,
            new_size_bp as int,
            min_size_bp as int,
        ) ==> r.1 == Err::<(), WmError>(WmError::SizeOutOfBounds) && r.0 == parent,
        index < parent.children@.len() && is_tiling_kind(parent.children@[index as int].kind)
            && tiling_count(parent.children@) >= 2 && spec_resize_in_bounds(
            parent.children@,
            index as int,
            new_size_bp as int,
            min_size_bp as int,
        ) ==> r.1 is Ok && r.0.children@ == spec_resized_children(
            parent.children@,
            index as int,
            new_size_bp as int,
        ),
        index < parent.children@.len() && is_tiling_kind(parent.children@[index as int].kind)
            && tiling_count(parent.children@) < 2 ==> r.1 is Ok && r.0 == parent,
{
    if index >= parent.children.len() {
        return (parent, Err(WmError::BadIndex));
    }
    if !kind_is_tiling(parent.children[index].kind) {
        return (parent, Err(WmError::KindMismatch));
    }
    let n = count_tiling(&parent.children);
    proof {
        lemma_tiling_sum_nonneg(parent.children@);
    }
    if n < 2 {
        // the only tiling child keeps the full extent
        return (parent, Ok(()));
    }
    let m: u64 = (n as u64) - 1;
    proof {
        assert(m <= 100000);
        assert((min_size_bp as int) * (m as int) <= 1000000000int) by (nonlinear_arith)
            requires 0 <= min_size_bp as int <= 10000, 0 <= m as int <= 100000;
    }
    let lower: u64 = min_size_bp as u64;
    let used: u64 = (min_size_bp as u64) * m;
    let upper: i64 = (FULL_SIZE as i64) - (used as i64);
    if (new_size_bp as u64) < lower || (new_size_bp as i64) > upper {
        return (parent, Err(WmError::SizeOutOfBounds));
    }
    let p2 = resize_in(parent, index, new_size_bp);
    (p2, Ok(()))
}

/// Flattens the split at `index` if it is degenerate — its only child
/// tiles, and that child's identifier collides with no sibling — and
/// otherwise changes nothing: flattening is a no-op unless the split has
/// exactly one tiling child.
pub fn flatten_split_container(parent: Container, index: usize) -> (r: (Container, bool))
    requires
        tree_wf(parent),
        index < parent.children@.len(),
    ensures
        tree_wf(r.0),
        !r.1 ==> r.0 == parent,
        !(parent.children@[index as int].kind == ContainerKind::Split && parent.children@[
            index as int
        ].children@.len() == 1 && is_tiling_kind(parent.children@[index as int].children@[0].kind))
            ==> !r.1 && r.0 == parent,
        r.1 ==> r.0.children@ == parent.children@.update(
            index as int,
            size_set(
                parent.children@[index as int].children@[0],
                parent.children@[index as int].size_bp as int,
            ),
        ),
{
    let degenerate = match parent.children[index].kind {
        ContainerKind::Split => parent.children[index].children.len() == 1 && kind_is_tiling(
            parent.children[index].children[0].kind,
        ),
        _ => false,
    };
    if !degenerate {
        return (parent, false);
    }
    let g_id = parent.children[index].children[0].id;
    let mut j: usize = 0;
    while j < parent.children.len()
        invariant
            tree_wf(parent),
            j <= parent.children@.len(),
            index < parent.children@.len(),
            g_id == parent.children@[index as int].children@[0].id,
            forall|k: int|
                0 <= k < j && k != index ==> (#[trigger] parent.children@[k]).id != g_id,
        decreases parent.children@.len() - j,
    {
        if j != index && parent.children[j].id == g_id {
            return (parent, false);
        }
        j = j + 1;
    }
    let p2 = flatten_in(parent, index);
    (p2, true)
}

/// Identifier of the first child whose subtree holds the target.
pub open spec fn first_containing(s: Seq<Container>, target: u128) -> u128
    decreases s,
{
    if s.len() == 0 {
        0
    } else if spec_contains(s[0], target) {
        s[0].id
    } else {
        first_containing(s.drop_first(), target)
    }
}

/// What focusing a descendant does, pinned exactly: on the path from the
/// target up to this node, the child holding the target moves to the head
/// of each focus order; everything else is untouched. A tree without the
/// target, or the target node itself, is unchanged.
pub open spec fn focus_rel(c: Container, target: u128, r: Container) -> bool
    decreases c,
{
    if c.id == target {
        r == c
    } else if !seq_contains(c.children@, target) {
        r == c
    } else {
        &&& r == (Container { children: r.children, focus_order: r.focus_order, ..c })
        &&& focus_kids_rel(c.children@, target, r.children@)
        &&& r.focus_order@ == spec_move_front(
            c.focus_order@,
            first_containing(c.children@, target),
        )
    }
}

/// The child-list part of `focus_rel`: only the first child whose subtree
/// holds the target changes, and it changes by `focus_rel`.
pub open spec fn focus_kids_rel(s: Seq<Container>, target: u128, rs: Seq<Container>) -> bool
    decreases s,
{
    if s.len() == 0 {
        rs == s
    } else if spec_contains(s[0], target) {
        rs.len() == s.len() && rs.drop_first() == s.drop_first() && focus_rel(s[0], target, rs[0])
    } else {
        rs.len() == s.len() && rs[0] == s[0] && focus_kids_rel(
            s.drop_first(),
            target,
            rs.drop_first(),
        )
    }
}

/// Replacing the first target-holding child at its index satisfies the
/// child-list relation.
proof fn lemma_focus_kids_update(s: Seq<Container>, target: u128, f: int, cv: Container)
    requires
        0 <= f < s.len(),
        spec_contains(s[f], target),
        forall|j: int| 0 <= j < f ==> !spec_contains(#[trigger] s[j], target),
        focus_rel(s[f], target, cv),
    ensures
        focus_kids_rel(s, target, s.update(f, cv)),
    decreases f,
{
    let rs = s.update(f, cv);
    if f == 0 {
        assert(rs.drop_first() =~= s.drop_first());
    } else {
        assert(!spec_contains(s[0], target));
        assert(rs[0] == s[0]);
        assert(forall|j: int| 0 <= j < s.len() - 1 ==> #[trigger] s.drop_first()[j] == s[j + 1]);
        lemma_focus_kids_update(s.drop_first(), target, f - 1, cv);
        assert(rs.drop_first() =~= s.drop_first().update(f - 1, cv));
    }
}

/// `focus_rel` keeps the identifier and whether the target is in reach.
proof fn lemma_focus_rel_contains(c: Container, target: u128, r: Container)
    requires
        focus_rel(c, target, r),
    ensures
        r.id == c.id,
        spec_contains(r, target) == spec_contains(c, target),
    decreases c,
{
    if c.id == target {
    } else if !seq_contains(c.children@, target) {
    } else {
        lemma_focus_kids_contains(c.children@, target, r.children@);
    }
}

proof fn lemma_focus_kids_contains(s: Seq<Container>, target: u128, rs: Seq<Container>)
    requires
        focus_kids_rel(s, target, rs),
    ensures
        rs.len() == s.len(),
        forall|j: int|
            0 <= j < s.len() ==> (#[trigger] rs[j]).id == s[j].id && spec_contains(rs[j], target)
                == spec_contains(s[j], target),
        seq_contains(rs, target) == seq_contains(s, target),
        first_containing(rs, target) == first_containing(s, target),
    decreases s,
{
    if s.len() == 0 {
    } else if spec_contains(s[0], target) {
        lemma_focus_rel_contains(s[0], target, rs[0]);
        assert(forall|j: int| 1 <= j < s.len() ==> #[trigger] rs[j] == rs.drop_first()[j - 1]
            && s.drop_first()[j - 1] == s[j]);
        assert(seq_contains(rs, target)) by {
            assert(spec_contains(rs[0], target));
        }
        assert(seq_contains(s, target)) by {
            assert(spec_contains(s[0], target));
        }
    } else {
        lemma_focus_kids_contains(s.drop_first(), target, rs.drop_first());
        assert(forall|j: int| 1 <= j < s.len() ==> #[trigger] rs[j] == rs.drop_first()[j - 1]
            && s.drop_first()[j - 1] == s[j]);
        assert(seq_contains(rs, target) == seq_contains(s, target)) by {
            if seq_contains(s, target) {
                let w = choose|w: int| 0 <= w < s.len() && spec_contains(#[trigger] s[w], target);
                assert(w >= 1);
                assert(spec_contains(s.drop_first()[w - 1], target));
                assert(seq_contains(s.drop_first(), target));
                let w2 = choose|w2: int|
                    0 <= w2 < rs.drop_first().len() && spec_contains(
                        #[trigger] rs.drop_first()[w2],
                        target,
                    );
                assert(spec_contains(rs[w2 + 1], target));
            }
            if seq_contains(rs, target) {
                let w = choose|w: int|
                    0 <= w < rs.len() && spec_contains(#[trigger] rs[w], target);
                assert(spec_contains(rs[0], target) == spec_contains(s[0], target));
                if w >= 1 {
                    assert(spec_contains(rs.drop_first()[w - 1], target));
                    assert(seq_contains(rs.drop_first(), target));
                    let w2 = choose|w2: int|
                        0 <= w2 < s.drop_first().len() && spec_contains(
                            #[trigger] s.drop_first()[w2],
                            target,
                        );
                    assert(spec_contains(s[w2 + 1], target));
                }
            }
        }
    }
}

/// The same tree, compared by content: every field equal, with child lists
/// and focus orders compared element by element.
pub open spec fn tree_like(a: Container, b: Container) -> bool
    decreases a,
{
    &&& a == (Container { children: a.children, focus_order: a.focus_order, ..b })
    &&& a.focus_order@ == b.focus_order@
    &&& kids_like(a.children@, b.children@)
}

pub open spec fn kids_like(x: Seq<Container>, y: Seq<Container>) -> bool
    decreases x,
{
    &&& x.len() == y.len()
    &&& (x.len() > 0 ==> tree_like(x[0], y[0]) && kids_like(x.drop_first(), y.drop_first()))
}

/// Content equality is reflexive.
pub proof fn lemma_tree_like_refl(c: Container)
    ensures
        tree_like(c, c),
    decreases c,
{
    lemma_kids_like_refl(c.children@);
}

proof fn lemma_kids_like_refl(s: Seq<Container>)
    ensures
        kids_like(s, s),
    decreases s,
{
    if s.len() > 0 {
        lemma_tree_like_refl(s[0]);
        lemma_kids_like_refl(s.drop_first());
    }
}

/// Focusing the same target twice equals focusing it once: the second
/// result has the same content as the first.
pub proof fn lemma_focus_idempotent(c: Container, target: u128, r1: Container, r2: Container)
    requires
        focus_rel(c, target, r1),
        focus_rel(r1, target, r2),
    ensures
        tree_like(r2, r1),
    decreases c,
{
    if c.id == target {
        lemma_tree_like_refl(r2);
    } else if !seq_contains(c.children@, target) {
        lemma_tree_like_refl(r2);
    } else {
        lemma_focus_kids_contains(c.children@, target, r1.children@);
        assert(r1.id == c.id);
        assert(r1.id != target);
        assert(seq_contains(r1.children@, target));
        assert(focus_kids_rel(c.children@, target, r1.children@));
        assert(focus_kids_rel(r1.children@, target, r2.children@));
        lemma_focus_kids_idempotent(c.children@, target, r1.children@, r2.children@);
        assert(first_containing(r1.children@, target) == first_containing(c.children@, target));
        lemma_move_front_idempotent(c.focus_order@, first_containing(c.children@, target));
        assert(r2.focus_order@ == r1.focus_order@);
    }
}

proof fn lemma_focus_kids_idempotent(
    s: Seq<Container>,
    target: u128,
    rs1: Seq<Container>,
    rs2: Seq<Container>,
)
    requires
        focus_kids_rel(s, target, rs1),
        focus_kids_rel(rs1, target, rs2),
    ensures
        kids_like(rs2, rs1),
    decreases s,
{
    if s.len() == 0 {
    } else if spec_contains(s[0], target) {
        lemma_focus_rel_contains(s[0], target, rs1[0]);
        assert(spec_contains(rs1[0], target));
        assert(focus_rel(rs1[0], target, rs2[0]));
        lemma_focus_idempotent(s[0], target, rs1[0], rs2[0]);
        assert(rs2.drop_first() == rs1.drop_first());
        lemma_kids_like_refl(rs1.drop_first());
    } else {
        assert(rs1[0] == s[0]);
        assert(!spec_contains(rs1[0], target));
        assert(rs2[0] == rs1[0]);
        lemma_tree_like_refl(rs1[0]);
        lemma_focus_kids_idempotent(s.drop_first(), target, rs1.drop_first(), rs2.drop_first());
    }
}

/// The first target-holding child found by a left-to-right scan carries
/// `first_containing`'s identifier.
proof fn lemma_first_containing_at(s: Seq<Container>, target: u128, f: int)
    requires
        0 <= f < s.len(),
        spec_contains(s[f], target),
        forall|j: int| 0 <= j < f ==> !spec_contains(#[trigger] s[j], target),
    ensures
        first_containing(s, target) == s[f].id,
    decreases f,
{
    if f == 0 {
    } else {
        assert(forall|j: int| 0 <= j < s.len() - 1 ==> #[trigger] s.drop_first()[j] == s[j + 1]);
        lemma_first_containing_at(s.drop_first(), target, f - 1);
    }
}

} // verus!
