//! The mathematical model of the incremental Bresenham rasterizer.
//!
//! A line segment is drawn by a walk over integer pixel coordinates. Each
//! step advances the dominant axis by one and lets the error term `p` decide
//! whether the minor axis moves. The walk is shared by all three container
//! levels: a block draws the pixels of the walk that fall inside its own
//! 64 x 64 frame, a tile strings block segments together, and the map strings
//! tile segments together, so the contracts of all three levels are stated
//! over the functions of this module.

use vstd::prelude::*;

verus! {

/// The coordinate of the dominant axis of a walk state.
pub open spec fn bres_dom(x: int, y: int, xaxis: bool) -> int {
    if xaxis {
        x
    } else {
        y
    }
}

/// One step of the Bresenham walk: the dominant axis advances by one; the
/// error term decides whether the minor axis moves. `dx0` and `dy0` are the
/// absolute deltas of the whole line, `q13` tells whether the minor axis
/// increments or decrements.
pub open spec fn bres_step(
    x: int,
    y: int,
    p: int,
    dx0: int,
    dy0: int,
    xaxis: bool,
    q13: bool,
) -> (int, int, int) {
    if xaxis {
        if p < 0 {
            (x + 1, y, p + 2 * dy0)
        } else {
            (x + 1, if q13 { y + 1 } else { y - 1 }, p + 2 * (dy0 - dx0))
        }
    } else {
        if p <= 0 {
            (x, y + 1, p + 2 * dx0)
        } else {
            (if q13 { x + 1 } else { x - 1 }, y + 1, p + 2 * (dx0 - dy0))
        }
    }
}

/// Whether pixel (px, py) is drawn by a walk that starts at (x, y) with error
/// term `p`, draws its start pixel, and then steps until the dominant axis
/// passes `e` or the walk leaves the square [0, w) x [0, w). The pixel that
/// first falls outside the square is not drawn.
pub open spec fn seg_hit(
    px: int,
    py: int,
    x: int,
    y: int,
    p: int,
    e: int,
    w: int,
    dx0: int,
    dy0: int,
    xaxis: bool,
    q13: bool,
) -> bool
    decreases e - bres_dom(x, y, xaxis),
{
    if px == x && py == y {
        true
    } else if bres_dom(x, y, xaxis) >= e {
        false
    } else {
        let s = bres_step(x, y, p, dx0, dy0, xaxis, q13);
        if 0 <= s.0 < w && 0 <= s.1 < w {
            seg_hit(px, py, s.0, s.1, s.2, e, w, dx0, dy0, xaxis, q13)
        } else {
            false
        }
    }
}

/// The state in which the walk of `seg_hit` terminates: either the first
/// state whose dominant coordinate has reached `e`, or the first state
/// outside [0, w) x [0, w).
pub open spec fn seg_end(
    x: int,
    y: int,
    p: int,
    e: int,
    w: int,
    dx0: int,
    dy0: int,
    xaxis: bool,
    q13: bool,
) -> (int, int, int)
    decreases e - bres_dom(x, y, xaxis),
{
    if bres_dom(x, y, xaxis) >= e {
        (x, y, p)
    } else {
        let s = bres_step(x, y, p, dx0, dy0, xaxis, q13);
        if 0 <= s.0 < w && 0 <= s.1 < w {
            seg_end(s.0, s.1, s.2, e, w, dx0, dy0, xaxis, q13)
        } else {
            s
        }
    }
}

/// Whether pixel (px, py) is drawn by one flat Bresenham walk over the
/// whole pixel grid, with no container boundaries at all: the reference
/// that the tiled rasterizer is held against.
pub open spec fn flat_hit(
    px: int,
    py: int,
    x: int,
    y: int,
    p: int,
    e: int,
    dx0: int,
    dy0: int,
    xaxis: bool,
    q13: bool,
) -> bool
    decreases e - bres_dom(x, y, xaxis),
{
    if px == x && py == y {
        true
    } else if bres_dom(x, y, xaxis) >= e {
        false
    } else {
        let s = bres_step(x, y, p, dx0, dy0, xaxis, q13);
        flat_hit(px, py, s.0, s.1, s.2, e, dx0, dy0, xaxis, q13)
    }
}

/// The flat walk decomposes at any square window: the pixels it hits from a
/// state inside the window are the pixels of the walk clipped to the window
/// plus the pixels it hits from the state where the clipped walk ends.
pub proof fn lemma_flat_box_decompose(
    px: int,
    py: int,
    x: int,
    y: int,
    p: int,
    e: int,
    ox: int,
    oy: int,
    dx0: int,
    dy0: int,
    xaxis: bool,
    q13: bool,
)
    requires
        ox <= x < ox + 8192,
        oy <= y < oy + 8192,
        bres_dom(px, py, xaxis) < e,
    ensures
        ({
            let le = if xaxis {
                e - ox
            } else {
                e - oy
            };
            let s = seg_end(x - ox, y - oy, p, le, 8192, dx0, dy0, xaxis, q13);
            flat_hit(px, py, x, y, p, e, dx0, dy0, xaxis, q13) == ((ox <= px < ox + 8192 && oy
                <= py < oy + 8192 && seg_hit(
                px - ox,
                py - oy,
                x - ox,
                y - oy,
                p,
                le,
                8192,
                dx0,
                dy0,
                xaxis,
                q13,
            )) || flat_hit(px, py, s.0 + ox, s.1 + oy, s.2, e, dx0, dy0, xaxis, q13))
        }),
    decreases e - bres_dom(x, y, xaxis),
{
    let le = if xaxis {
        e - ox
    } else {
        e - oy
    };
    let lx = x - ox;
    let ly = y - oy;
    if bres_dom(x, y, xaxis) >= e {
        assert(!(px == x && py == y));
        assert(!(px - ox == lx && py - oy == ly));
    } else {
        let st = bres_step(x, y, p, dx0, dy0, xaxis, q13);
        let stl = bres_step(lx, ly, p, dx0, dy0, xaxis, q13);
        assert(st == (stl.0 + ox, stl.1 + oy, stl.2));
        if 0 <= stl.0 < 8192 && 0 <= stl.1 < 8192 {
            lemma_flat_box_decompose(px, py, st.0, st.1, st.2, e, ox, oy, dx0, dy0, xaxis, q13);
            assert(seg_end(stl.0, stl.1, stl.2, le, 8192, dx0, dy0, xaxis, q13) == seg_end(
                lx,
                ly,
                p,
                le,
                8192,
                dx0,
                dy0,
                xaxis,
                q13,
            ));
        } else {
            assert(seg_end(lx, ly, p, le, 8192, dx0, dy0, xaxis, q13) == stl);
        }
    }
}

/// Every pixel drawn by a segment walk that starts inside the square lies
/// inside the square.
pub proof fn lemma_seg_hit_range(
    px: int,
    py: int,
    x: int,
    y: int,
    p: int,
    e: int,
    w: int,
    dx0: int,
    dy0: int,
    xaxis: bool,
    q13: bool,
)
    requires
        0 <= x < w,
        0 <= y < w,
        seg_hit(px, py, x, y, p, e, w, dx0, dy0, xaxis, q13),
    ensures
        0 <= px < w,
        0 <= py < w,
    decreases e - bres_dom(x, y, xaxis),
{
    if px == x && py == y {
    } else if bres_dom(x, y, xaxis) >= e {
    } else {
        let s = bres_step(x, y, p, dx0, dy0, xaxis, q13);
        if 0 <= s.0 < w && 0 <= s.1 < w {
            lemma_seg_hit_range(px, py, s.0, s.1, s.2, e, w, dx0, dy0, xaxis, q13);
        }
    }
}

/// Every pixel of a clipped walk is a pixel of the flat walk: clipping only
/// removes pixels, it never invents one.
pub proof fn lemma_seg_in_flat(
    px: int,
    py: int,
    x: int,
    y: int,
    p: int,
    le: int,
    w: int,
    ox: int,
    oy: int,
    e: int,
    dx0: int,
    dy0: int,
    xaxis: bool,
    q13: bool,
)
    requires
        seg_hit(px, py, x, y, p, le, w, dx0, dy0, xaxis, q13),
        le == (if xaxis {
            e - ox
        } else {
            e - oy
        }),
    ensures
        flat_hit(px + ox, py + oy, x + ox, y + oy, p, e, dx0, dy0, xaxis, q13),
    decreases le - bres_dom(x, y, xaxis),
{
    if px == x && py == y {
    } else if bres_dom(x, y, xaxis) >= le {
    } else {
        let s = bres_step(x, y, p, dx0, dy0, xaxis, q13);
        if 0 <= s.0 < w && 0 <= s.1 < w {
            lemma_seg_in_flat(px, py, s.0, s.1, s.2, le, w, ox, oy, e, dx0, dy0, xaxis, q13);
            assert(bres_step(x + ox, y + oy, p, dx0, dy0, xaxis, q13) == (
            s.0 + ox,
            s.1 + oy,
            s.2,
            ));
        }
    }
}

/// A pixel the flat walk draws from the end state of a clipped segment is
/// already drawn by the flat walk from the segment's start.
pub proof fn lemma_flat_reach(
    px: int,
    py: int,
    x: int,
    y: int,
    p: int,
    le: int,
    w: int,
    ox: int,
    oy: int,
    e: int,
    dx0: int,
    dy0: int,
    xaxis: bool,
    q13: bool,
)
    requires
        le == (if xaxis {
            e - ox
        } else {
            e - oy
        }),
        ({
            let s = seg_end(x, y, p, le, w, dx0, dy0, xaxis, q13);
            flat_hit(px, py, s.0 + ox, s.1 + oy, s.2, e, dx0, dy0, xaxis, q13)
        }),
    ensures
        flat_hit(px, py, x + ox, y + oy, p, e, dx0, dy0, xaxis, q13),
    decreases le - bres_dom(x, y, xaxis),
{
    if bres_dom(x, y, xaxis) >= le {
    } else {
        let s = bres_step(x, y, p, dx0, dy0, xaxis, q13);
        assert(bres_step(x + ox, y + oy, p, dx0, dy0, xaxis, q13) == (s.0 + ox, s.1 + oy, s.2));
        if 0 <= s.0 < w && 0 <= s.1 < w {
            lemma_flat_reach(px, py, s.0, s.1, s.2, le, w, ox, oy, e, dx0, dy0, xaxis, q13);
        }
    }
}

/// Where a segment walk ends: the dominant axis never moves backwards, moves
/// by at least one when the walk starts before `e`, and never passes `e`.
pub proof fn lemma_seg_end_dom(
    x: int,
    y: int,
    p: int,
    e: int,
    w: int,
    dx0: int,
    dy0: int,
    xaxis: bool,
    q13: bool,
)
    ensures
        ({
            let s = seg_end(x, y, p, e, w, dx0, dy0, xaxis, q13);
            let d0 = bres_dom(x, y, xaxis);
            let d1 = bres_dom(s.0, s.1, xaxis);
            &&& d0 >= e ==> s == (x, y, p)
            &&& d0 < e ==> d0 < d1 <= e
        }),
    decreases e - bres_dom(x, y, xaxis),
{
    if bres_dom(x, y, xaxis) < e {
        let s = bres_step(x, y, p, dx0, dy0, xaxis, q13);
        if 0 <= s.0 < w && 0 <= s.1 < w {
            lemma_seg_end_dom(s.0, s.1, s.2, e, w, dx0, dy0, xaxis, q13);
        }
    }
}

/// The error term moves by at most 2 * (dx0 + dy0) per step of the dominant
/// axis, so its drift over a segment is bounded by the distance walked.
pub proof fn lemma_seg_end_p_delta(
    x: int,
    y: int,
    p: int,
    e: int,
    w: int,
    dx0: int,
    dy0: int,
    xaxis: bool,
    q13: bool,
)
    requires
        0 <= dx0 <= 0x80_0000,
        0 <= dy0 <= 0x80_0000,
    ensures
        ({
            let s = seg_end(x, y, p, e, w, dx0, dy0, xaxis, q13);
            let d = bres_dom(s.0, s.1, xaxis) - bres_dom(x, y, xaxis);
            &&& 0 <= d
            &&& p - d * 0x200_0000 <= s.2 <= p + d * 0x200_0000
        }),
    decreases e - bres_dom(x, y, xaxis),
{
    if bres_dom(x, y, xaxis) < e {
        let s = bres_step(x, y, p, dx0, dy0, xaxis, q13);
        if 0 <= s.0 < w && 0 <= s.1 < w {
            lemma_seg_end_p_delta(s.0, s.1, s.2, e, w, dx0, dy0, xaxis, q13);
        }
    }
}

/// The minor axis moves by at most one pixel per step of the dominant axis.
pub proof fn lemma_seg_end_minor_delta(
    x: int,
    y: int,
    p: int,
    e: int,
    w: int,
    dx0: int,
    dy0: int,
    xaxis: bool,
    q13: bool,
)
    ensures
        ({
            let s = seg_end(x, y, p, e, w, dx0, dy0, xaxis, q13);
            let d = bres_dom(s.0, s.1, xaxis) - bres_dom(x, y, xaxis);
            let m0 = if xaxis {
                y
            } else {
                x
            };
            let m1 = if xaxis {
                s.1
            } else {
                s.0
            };
            m0 - d <= m1 <= m0 + d
        }),
    decreases e - bres_dom(x, y, xaxis),
{
    if bres_dom(x, y, xaxis) < e {
        let s = bres_step(x, y, p, dx0, dy0, xaxis, q13);
        if 0 <= s.0 < w && 0 <= s.1 < w {
            lemma_seg_end_minor_delta(s.0, s.1, s.2, e, w, dx0, dy0, xaxis, q13);
            lemma_seg_end_dom(s.0, s.1, s.2, e, w, dx0, dy0, xaxis, q13);
        }
    }
}

/// A segment walk that starts inside the square never moves more than one
/// pixel beyond it: only the very last step can leave, and a step moves each
/// axis by at most one.
pub proof fn lemma_seg_end_bounds(
    x: int,
    y: int,
    p: int,
    e: int,
    w: int,
    dx0: int,
    dy0: int,
    xaxis: bool,
    q13: bool,
)
    requires
        0 <= x < w,
        0 <= y < w,
    ensures
        ({
            let s = seg_end(x, y, p, e, w, dx0, dy0, xaxis, q13);
            -1 <= s.0 <= w && -1 <= s.1 <= w
        }),
    decreases e - bres_dom(x, y, xaxis),
{
    if bres_dom(x, y, xaxis) < e {
        let s = bres_step(x, y, p, dx0, dy0, xaxis, q13);
        if 0 <= s.0 < w && 0 <= s.1 < w {
            lemma_seg_end_bounds(s.0, s.1, s.2, e, w, dx0, dy0, xaxis, q13);
        }
    }
}

} // verus!
