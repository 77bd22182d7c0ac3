//! The layout engine: pure geometry from the tree and per-node sizing
//! state. Tiling siblings are laid along the parent's tiling axis with the
//! inner gap between neighbours; a sibling never takes more than what
//! remains of the usable extent, and the last sibling absorbs the rounding
//! residue, so the children exactly tile the parent without overlapping.
use vstd::prelude::*;

use crate::geometry::{rect_wf, Rect};
use crate::tree::{TilingDirection, FULL_SIZE};

verus! {

/// Round half to even of `p / den` for a positive divisor.
pub open spec fn rhe(p: int, den: int) -> int {
    let q = p / den;
    let r = p % den;
    if 2 * r > den {
        q + 1
    } else if 2 * r == den {
        if q % 2 == 0 {
            q
        } else {
            q + 1
        }
    } else {
        q
    }
}

/// Unclamped extent of a tiling sibling: its share of the usable extent,
/// rounded half to even.
pub open spec fn spec_tile_extent(size_bp: int, usable: int) -> int {
    rhe(size_bp * usable, FULL_SIZE as int)
}

pub open spec fn min_int(a: int, b: int) -> int {
    if a < b {
        a
    } else {
        b
    }
}

/// Integer division by a positive constant is superadditive.
pub proof fn lemma_div_superadd(a: int, b: int, d: int)
    requires
        a >= 0,
        b >= 0,
        d > 0,
    ensures
        a / d + b / d <= (a + b) / d,
{
    let qa = a / d;
    let ra = a % d;
    let qb = b / d;
    let rb = b % d;
    vstd::arithmetic::div_mod::lemma_fundamental_div_mod(a, d);
    vstd::arithmetic::div_mod::lemma_fundamental_div_mod(b, d);
    vstd::arithmetic::div_mod::lemma_mod_pos_bound(a, d);
    vstd::arithmetic::div_mod::lemma_mod_pos_bound(b, d);
    assert((qa + qb) * d + (ra + rb) == a + b) by (nonlinear_arith)
        requires a == d * qa + ra, b == d * qb + rb;
    if ra + rb < d {
        vstd::arithmetic::div_mod::lemma_fundamental_div_mod_converse(a + b, d, qa + qb, ra + rb);
    } else {
        assert((qa + qb + 1) * d + (ra + rb - d) == a + b) by (nonlinear_arith)
            requires (qa + qb) * d + (ra + rb) == a + b;
        vstd::arithmetic::div_mod::lemma_fundamental_div_mod_converse(
            a + b,
            d,
            qa + qb + 1,
            ra + rb - d,
        );
    }
}

/// Executable round half to even for non-negative operands.
fn rhe_div(p: i64, den: i64) -> (r: i64)
    requires
        0 < den <= 1000000,
        p >= 0,
        p <= 0x4000_0000_0000,
    ensures
        r == rhe(p as int, den as int),
{
    let q = p / den;
    let r = p % den;
    if 2 * r > den {
        q + 1
    } else if 2 * r == den {
        if q % 2 == 0 {
            q
        } else {
            q + 1
        }
    } else {
        q
    }
}

/// Rectangles of `n >= 1` tiling siblings inside `parent`, laid along
/// `dir` with `gap` pixels between neighbours. Every extent is
/// non-negative, so with the gaps between them the siblings are pairwise
/// disjoint: each begins exactly one gap after its predecessor ends. They
/// inherit the parent's full cross-axis extent. Every sibling but the last
/// takes its rounded share of the usable extent — clamped to what is left
/// of it — and the last takes exactly what remains, ending at the parent's
/// far edge, so together the siblings cover the parent minus the gaps.
pub fn layout_tiling(parent: Rect, dir: TilingDirection, gap: i32, sizes: &Vec<u32>) -> (r: Vec<
    Rect,
>)
    requires
        rect_wf(parent),
        0 <= gap <= 10000,
        1 <= sizes@.len() <= 10000,
        forall|i: int| 0 <= i < sizes@.len() ==> #[trigger] sizes@[i] <= FULL_SIZE,
        gap * (sizes@.len() - 1) <= (if dir == TilingDirection::Horizontal {
            parent.width as int
        } else {
            parent.height as int
        }),
    ensures
        r@.len() == sizes@.len(),
        forall|i: int|
            0 <= i < r@.len() ==> (if dir == TilingDirection::Horizontal {
                (#[trigger] r@[i]).width as int
            } else {
                r@[i].height as int
            }) >= 0,
        dir == TilingDirection::Horizontal ==> {
            &&& (forall|i: int|
                0 <= i < r@.len() ==> (#[trigger] r@[i]).y == parent.y && r@[i].height
                    == parent.height)
            &&& r@[0].x == parent.x
            &&& (forall|i: int|
                1 <= i < r@.len() ==> (#[trigger] r@[i]).x == r@[i - 1].x + r@[i - 1].width + gap)
            &&& (forall|i: int|
                0 <= i < r@.len() - 1 ==> (#[trigger] r@[i]).width == min_int(
                    spec_tile_extent(
                        sizes@[i] as int,
                        parent.width - gap * (sizes@.len() - 1),
                    ),
                    parent.width - gap * (sizes@.len() - 1) - (r@[i].x - parent.x - gap * i),
                ))
            &&& r@[r@.len() - 1].x + r@[r@.len() - 1].width == parent.x + parent.width
        },
        dir == TilingDirection::Vertical ==> {
            &&& (forall|i: int|
                0 <= i < r@.len() ==> (#[trigger] r@[i]).x == parent.x && r@[i].width
                    == parent.width)
            &&& r@[0].y == parent.y
            &&& (forall|i: int|
                1 <= i < r@.len() ==> (#[trigger] r@[i]).y == r@[i - 1].y + r@[i - 1].height + gap)
            &&& (forall|i: int|
                0 <= i < r@.len() - 1 ==> (#[trigger] r@[i]).height == min_int(
                    spec_tile_extent(
                        sizes@[i] as int,
                        parent.height - gap * (sizes@.len() - 1),
                    ),
                    parent.height - gap * (sizes@.len() - 1) - (r@[i].y - parent.y - gap * i),
                ))
            &&& r@[r@.len() - 1].y + r@[r@.len() - 1].height == parent.y + parent.height
        },
{
    let n = sizes.len();
    let horizontal = matches!(dir, TilingDirection::Horizontal);
    let extent: i32 = if horizontal {
        parent.width
    } else {
        parent.height
    };
    let usable: i64 = (extent as i64) - (gap as i64) * ((n - 1) as i64);
    let ghost u = usable as int;
    let mut out: Vec<Rect> = Vec::new();
    let mut cursor: i64 = if horizontal {
        parent.x as i64
    } else {
        parent.y as i64
    };
    let ghost origin = cursor as int;
    let mut remaining: i64 = usable;
    let mut i: usize = 0;
    while i < n
        invariant
            n == sizes@.len(),
            1 <= n <= 10000,
            0 <= gap <= 10000,
            rect_wf(parent),
            horizontal == (dir == TilingDirection::Horizontal),
            0 <= u <= 1000000,
            usable == u,
            u == extent - gap * (n - 1),
            extent == (if horizontal {
                parent.width as int
            } else {
                parent.height as int
            }),
            origin == (if horizontal {
                parent.x as int
            } else {
                parent.y as int
            }),
            -1000000 <= origin <= 1000000,
            forall|j: int| 0 <= j < n ==> #[trigger] sizes@[j] <= FULL_SIZE,
            i <= n,
            out@.len() == i,
            0 <= remaining as int <= u,
            i == 0 ==> remaining as int == u,
            i < n ==> cursor as int == origin + (u - remaining) + gap * i,
            i == n ==> remaining == 0 && cursor as int == origin + u + gap * (n - 1),
            i > 0 ==> cursor as int == (if horizontal {
                out@[i - 1].x + out@[i - 1].width + (if i < n {
                    gap as int
                } else {
                    0int
                })
            } else {
                out@[i - 1].y + out@[i - 1].height + (if i < n {
                    gap as int
                } else {
                    0int
                })
            }),
            forall|j: int|
                0 <= j < i ==> (if horizontal {
                    (#[trigger] out@[j]).width as int
                } else {
                    out@[j].height as int
                }) >= 0,
            horizontal ==> {
                &&& (forall|j: int|
                    0 <= j < i ==> (#[trigger] out@[j]).y == parent.y && out@[j].height
                        == parent.height)
                &&& (i > 0 ==> out@[0].x == parent.x)
                &&& (forall|j: int|
                    1 <= j < i ==> (#[trigger] out@[j]).x == out@[j - 1].x + out@[j - 1].width
                        + gap)
                &&& (forall|j: int|
                    0 <= j < i && j < n - 1 ==> (#[trigger] out@[j]).width == min_int(
                        spec_tile_extent(sizes@[j] as int, u),
                        u - (out@[j].x - parent.x - gap * j),
                    ))
                &&& (i == n ==> out@[n - 1].x + out@[n - 1].width == parent.x + parent.width)
            },
            !horizontal ==> {
                &&& (forall|j: int|
                    0 <= j < i ==> (#[trigger] out@[j]).x == parent.x && out@[j].width
                        == parent.width)
                &&& (i > 0 ==> out@[0].y == parent.y)
                &&& (forall|j: int|
                    1 <= j < i ==> (#[trigger] out@[j]).y == out@[j - 1].y + out@[j - 1].height
                        + gap)
                &&& (forall|j: int|
                    0 <= j < i && j < n - 1 ==> (#[trigger] out@[j]).height == min_int(
                        spec_tile_extent(sizes@[j] as int, u),
                        u - (out@[j].y - parent.y - gap * j),
                    ))
                &&& (i == n ==> out@[n - 1].y + out@[n - 1].height == parent.y + parent.height)
            },
        decreases n - i,
    {
        proof {
            assert(gap * i <= 10000 * 10000) by (nonlinear_arith)
                requires 0 <= gap <= 10000, 0 <= i <= 10000;
            assert(gap * i >= 0) by (nonlinear_arith)
                requires gap >= 0, i >= 0;
        }
        let last = i == n - 1;
        let w: i64 = if last {
            remaining
        } else {
            proof {
                assert(sizes@[i as int] * u <= 10000 * 1000000) by (nonlinear_arith)
                    requires 0 <= sizes@[i as int] <= 10000, 0 <= u <= 1000000;
                assert(sizes@[i as int] * u >= 0) by (nonlinear_arith)
                    requires 0 <= sizes@[i as int], 0 <= u;
            }
            let p: i64 = (sizes[i] as i64) * usable;
            let e = rhe_div(p, 10000);
            proof {
                assert(e >= 0) by {
                    assert(p / 10000 >= 0);
                }
            }
            // a share never takes more than what remains of the extent
            if e > remaining {
                remaining
            } else {
                e
            }
        };
        let ghost rem0 = remaining as int;
        let ghost cur0 = cursor as int;
        proof {
            assert(origin <= cursor as int <= origin + u + 10000 * 10000);
            assert(0 <= w as int <= u);
        }
        let rect = if horizontal {
            Rect { x: cursor as i32, y: parent.y, width: w as i32, height: parent.height }
        } else {
            Rect { x: parent.x, y: cursor as i32, width: parent.width, height: w as i32 }
        };
        out.push(rect);
        remaining = remaining - w;
        cursor = if last {
            cursor + w
        } else {
            cursor + w + (gap as i64)
        };
        proof {
            assert(gap * (i + 1) == gap * i + gap) by (nonlinear_arith);
            let j = i as int;
            if !last {
                assert(u - (cur0 - origin - gap * j) == rem0);
                assert(w as int == min_int(spec_tile_extent(sizes@[j] as int, u), rem0));
            }
            assert(out@[j] == rect);
            if horizontal {
                assert(out@[j].y == parent.y && out@[j].height == parent.height);
                assert(out@[j].x == cur0 && out@[j].width == w as int);
                if j == 0 {
                    assert(out@[0].x == parent.x);
                }
                if !last {
                    assert(out@[j].width == min_int(
                        spec_tile_extent(sizes@[j] as int, u),
                        u - (out@[j].x - parent.x - gap * j),
                    ));
                } else {
                    assert(out@[j].x + out@[j].width == parent.x + parent.width);
                }
            } else {
                assert(out@[j].x == parent.x && out@[j].width == parent.width);
                assert(out@[j].y == cur0 && out@[j].height == w as int);
                if j == 0 {
                    assert(out@[0].y == parent.y);
                }
                if !last {
                    assert(out@[j].height == min_int(
                        spec_tile_extent(sizes@[j] as int, u),
                        u - (out@[j].y - parent.y - gap * j),
                    ));
                } else {
                    assert(out@[j].y + out@[j].height == parent.y + parent.height);
                }
            }
        }
        i = i + 1;
    }
    out
}

} // verus!
