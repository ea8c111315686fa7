//! The middle level of the pyramid: a sparse 128 x 128 grid of blocks.

use vstd::prelude::*;
use crate::block::Block;
use crate::block::{bit_at, block_any};
use crate::bres::{bres_dom, bres_step, seg_hit, seg_end};
use crate::bres::{lemma_seg_end_dom, lemma_seg_end_p_delta, lemma_seg_end_bounds, lemma_seg_end_minor_delta, lemma_seg_hit_range};
use crate::codec::{slot_of, block_bytes, payload_wf, sub_vec};

verus! {

/// Whether pixel (px, py) of a tile (both in [0, 8192)) is drawn by a walk
/// that starts at tile-local pixel (x, y) with error term `p` and runs until
/// the dominant axis reaches `e` or the walk leaves the tile. The walk is
/// the concatenation of block segments: each block draws the pixels of the
/// walk inside its own frame and hands the boundary state to its neighbour.
pub open spec fn tile_seg_hit(
    px: int,
    py: int,
    x: int,
    y: int,
    p: int,
    e: int,
    dx0: int,
    dy0: int,
    xaxis: bool,
    q13: bool,
) -> bool
    decreases e - bres_dom(x, y, xaxis),
    via tile_seg_hit_dec
{
    if bres_dom(x, y, xaxis) >= e {
        false
    } else if !(0 <= x < 8192 && 0 <= y < 8192) {
        false
    } else {
        let bx = x / 64;
        let by = y / 64;
        let le = if xaxis {
            e - bx * 64
        } else {
            e - by * 64
        };
        let hit = 0 <= px - bx * 64 < 64 && 0 <= py - by * 64 < 64 && seg_hit(
            px - bx * 64,
            py - by * 64,
            x - bx * 64,
            y - by * 64,
            p,
            le,
            64,
            dx0,
            dy0,
            xaxis,
            q13,
        );
        let s = seg_end(x - bx * 64, y - by * 64, p, le, 64, dx0, dy0, xaxis, q13);
        hit || tile_seg_hit(px, py, s.0 + bx * 64, s.1 + by * 64, s.2, e, dx0, dy0, xaxis, q13)
    }
}

#[via_fn]
proof fn tile_seg_hit_dec(
    px: int,
    py: int,
    x: int,
    y: int,
    p: int,
    e: int,
    dx0: int,
    dy0: int,
    xaxis: bool,
    q13: bool,
) {
    if bres_dom(x, y, xaxis) < e && 0 <= x < 8192 && 0 <= y < 8192 {
        let bx = x / 64;
        let by = y / 64;
        let le = if xaxis {
            e - bx * 64
        } else {
            e - by * 64
        };
        lemma_seg_end_dom(x - bx * 64, y - by * 64, p, le, 64, dx0, dy0, xaxis, q13);
    }
}

/// The walk state in which a tile-level walk terminates: the first state
/// whose dominant coordinate has reached `e` or that lies outside the tile.
pub open spec fn tile_seg_end(
    x: int,
    y: int,
    p: int,
    e: int,
    dx0: int,
    dy0: int,
    xaxis: bool,
    q13: bool,
) -> (int, int, int)
    decreases e - bres_dom(x, y, xaxis),
    via tile_seg_end_dec
{
    if bres_dom(x, y, xaxis) >= e {
        (x, y, p)
    } else if !(0 <= x < 8192 && 0 <= y < 8192) {
        (x, y, p)
    } else {
        let bx = x / 64;
        let by = y / 64;
        let le = if xaxis {
            e - bx * 64
        } else {
            e - by * 64
        };
        let s = seg_end(x - bx * 64, y - by * 64, p, le, 64, dx0, dy0, xaxis, q13);
        tile_seg_end(s.0 + bx * 64, s.1 + by * 64, s.2, e, dx0, dy0, xaxis, q13)
    }
}

#[via_fn]
proof fn tile_seg_end_dec(
    x: int,
    y: int,
    p: int,
    e: int,
    dx0: int,
    dy0: int,
    xaxis: bool,
    q13: bool,
) {
    if bres_dom(x, y, xaxis) < e && 0 <= x < 8192 && 0 <= y < 8192 {
        let bx = x / 64;
        let by = y / 64;
        let le = if xaxis {
            e - bx * 64
        } else {
            e - by * 64
        };
        lemma_seg_end_dom(x - bx * 64, y - by * 64, p, le, 64, dx0, dy0, xaxis, q13);
    }
}

/// Where a tile-level walk ends: the dominant axis never moves backwards,
/// never passes `e`, and moves by at least one when the walk starts inside
/// the tile before `e`.
pub proof fn lemma_tile_seg_end_dom(
    x: int,
    y: int,
    p: int,
    e: int,
    dx0: int,
    dy0: int,
    xaxis: bool,
    q13: bool,
)
    ensures
        ({
            let s = tile_seg_end(x, y, p, e, dx0, dy0, xaxis, q13);
            let d0 = bres_dom(x, y, xaxis);
            let d1 = bres_dom(s.0, s.1, xaxis);
            &&& d0 <= d1
            &&& d1 <= d0 || d1 <= e
            &&& (0 <= x < 8192 && 0 <= y < 8192 && d0 < e) ==> d0 < d1
        }),
    decreases e - bres_dom(x, y, xaxis),
{
    if bres_dom(x, y, xaxis) < e && 0 <= x < 8192 && 0 <= y < 8192 {
        let bx = x / 64;
        let by = y / 64;
        let le = if xaxis {
            e - bx * 64
        } else {
            e - by * 64
        };
        lemma_seg_end_dom(x - bx * 64, y - by * 64, p, le, 64, dx0, dy0, xaxis, q13);
        let s = seg_end(x - bx * 64, y - by * 64, p, le, 64, dx0, dy0, xaxis, q13);
        lemma_tile_seg_end_dom(s.0 + bx * 64, s.1 + by * 64, s.2, e, dx0, dy0, xaxis, q13);
    }
}

/// The error term drifts by at most 2 * (dx0 + dy0) per step of the dominant
/// axis over a tile-level walk.
pub proof fn lemma_tile_seg_end_p_delta(
    x: int,
    y: int,
    p: int,
    e: int,
    dx0: int,
    dy0: int,
    xaxis: bool,
    q13: bool,
)
    requires
        0 <= dx0 <= 0x80_0000,
        0 <= dy0 <= 0x80_0000,
    ensures
        ({
            let s = tile_seg_end(x, y, p, e, dx0, dy0, xaxis, q13);
            let d = bres_dom(s.0, s.1, xaxis) - bres_dom(x, y, xaxis);
            &&& 0 <= d
            &&& p - d * 0x200_0000 <= s.2 <= p + d * 0x200_0000
        }),
    decreases e - bres_dom(x, y, xaxis),
{
    if bres_dom(x, y, xaxis) < e && 0 <= x < 8192 && 0 <= y < 8192 {
        let bx = x / 64;
        let by = y / 64;
        let le = if xaxis {
            e - bx * 64
        } else {
            e - by * 64
        };
        lemma_seg_end_dom(x - bx * 64, y - by * 64, p, le, 64, dx0, dy0, xaxis, q13);
        lemma_seg_end_p_delta(x - bx * 64, y - by * 64, p, le, 64, dx0, dy0, xaxis, q13);
        let s = seg_end(x - bx * 64, y - by * 64, p, le, 64, dx0, dy0, xaxis, q13);
        lemma_tile_seg_end_dom(s.0 + bx * 64, s.1 + by * 64, s.2, e, dx0, dy0, xaxis, q13);
        lemma_tile_seg_end_p_delta(s.0 + bx * 64, s.1 + by * 64, s.2, e, dx0, dy0, xaxis, q13);
    }
}

/// The minor axis moves by at most one pixel per step of the dominant axis
/// over a tile-level walk.
pub proof fn lemma_tile_seg_end_minor_delta(
    x: int,
    y: int,
    p: int,
    e: int,
    dx0: int,
    dy0: int,
    xaxis: bool,
    q13: bool,
)
    ensures
        ({
            let s = tile_seg_end(x, y, p, e, dx0, dy0, xaxis, q13);
            let d = bres_dom(s.0, s.1, xaxis) - bres_dom(x, y, xaxis);
            let m0 = if xaxis {
                y
            } else {
                x
            };
            let m1 = if xaxis {
                s.1
            } else {
                s.0
            };
            m0 - d <= m1 <= m0 + d
        }),
    decreases e - bres_dom(x, y, xaxis),
{
    if bres_dom(x, y, xaxis) < e && 0 <= x < 8192 && 0 <= y < 8192 {
        let bx = x / 64;
        let by = y / 64;
        let le = if xaxis {
            e - bx * 64
        } else {
            e - by * 64
        };
        lemma_seg_end_dom(x - bx * 64, y - by * 64, p, le, 64, dx0, dy0, xaxis, q13);
        lemma_seg_end_minor_delta(x - bx * 64, y - by * 64, p, le, 64, dx0, dy0, xaxis, q13);
        let s = seg_end(x - bx * 64, y - by * 64, p, le, 64, dx0, dy0, xaxis, q13);
        lemma_tile_seg_end_dom(s.0 + bx * 64, s.1 + by * 64, s.2, e, dx0, dy0, xaxis, q13);
        lemma_tile_seg_end_minor_delta(s.0 + bx * 64, s.1 + by * 64, s.2, e, dx0, dy0, xaxis, q13);
    }
}

/// One block segment of a walk clipped to the tile decomposes a tile-wide
/// flat walk: the pixels the flat walk hits from here are the pixels of the
/// current block segment, plus whatever the flat walk hits from the state
/// where the block segment ends, as long as that state is still inside the
/// tile. This is where carrying the error term across the block boundary
/// pays off: nothing is lost and nothing is drawn twice at the seam.
pub proof fn lemma_seg_block_decompose(
    px: int,
    py: int,
    x: int,
    y: int,
    p: int,
    e: int,
    dx0: int,
    dy0: int,
    xaxis: bool,
    q13: bool,
)
    requires
        0 <= x < 8192,
        0 <= y < 8192,
        0 <= px < 8192,
        0 <= py < 8192,
        bres_dom(px, py, xaxis) < e,
    ensures
        ({
            let bx = x / 64;
            let by = y / 64;
            let le = if xaxis {
                e - bx * 64
            } else {
                e - by * 64
            };
            let s = seg_end(x - bx * 64, y - by * 64, p, le, 64, dx0, dy0, xaxis, q13);
            seg_hit(px, py, x, y, p, e, 8192, dx0, dy0, xaxis, q13) == ((0 <= px - bx * 64 < 64
                && 0 <= py - by * 64 < 64 && seg_hit(
                px - bx * 64,
                py - by * 64,
                x - bx * 64,
                y - by * 64,
                p,
                le,
                64,
                dx0,
                dy0,
                xaxis,
                q13,
            )) || (0 <= s.0 + bx * 64 < 8192 && 0 <= s.1 + by * 64 < 8192 && seg_hit(
                px,
                py,
                s.0 + bx * 64,
                s.1 + by * 64,
                s.2,
                e,
                8192,
                dx0,
                dy0,
                xaxis,
                q13,
            )))
        }),
    decreases e - bres_dom(x, y, xaxis),
{
    let bx = x / 64;
    let by = y / 64;
    let le = if xaxis {
        e - bx * 64
    } else {
        e - by * 64
    };
    let lx = x - bx * 64;
    let ly = y - by * 64;
    assert(0 <= lx < 64 && 0 <= ly < 64);
    if bres_dom(x, y, xaxis) >= e {
        assert(!(px == x && py == y));
        assert(!(px - bx * 64 == lx && py - by * 64 == ly));
    } else {
        let st = bres_step(x, y, p, dx0, dy0, xaxis, q13);
        let stl = bres_step(lx, ly, p, dx0, dy0, xaxis, q13);
        assert(st == (stl.0 + bx * 64, stl.1 + by * 64, stl.2));
        if 0 <= stl.0 < 64 && 0 <= stl.1 < 64 {
            assert(0 <= st.0 < 8192 && 0 <= st.1 < 8192);
            assert(st.0 / 64 == bx && st.1 / 64 == by);
            lemma_seg_block_decompose(px, py, st.0, st.1, st.2, e, dx0, dy0, xaxis, q13);
            assert(seg_end(stl.0, stl.1, stl.2, le, 64, dx0, dy0, xaxis, q13) == seg_end(
                lx,
                ly,
                p,
                le,
                64,
                dx0,
                dy0,
                xaxis,
                q13,
            ));
        } else {
            assert(seg_end(lx, ly, p, le, 64, dx0, dy0, xaxis, q13) == stl);
            if 0 <= st.0 < 8192 && 0 <= st.1 < 8192 {
            } else {
            }
        }
    }
}

/// The end state of a tile-wide flat walk is unchanged by cutting the walk
/// at the end of the current block segment.
pub proof fn lemma_seg_block_end(
    x: int,
    y: int,
    p: int,
    e: int,
    dx0: int,
    dy0: int,
    xaxis: bool,
    q13: bool,
)
    requires
        0 <= x < 8192,
        0 <= y < 8192,
    ensures
        ({
            let bx = x / 64;
            let by = y / 64;
            let le = if xaxis {
                e - bx * 64
            } else {
                e - by * 64
            };
            let s = seg_end(x - bx * 64, y - by * 64, p, le, 64, dx0, dy0, xaxis, q13);
            let n0 = s.0 + bx * 64;
            let n1 = s.1 + by * 64;
            seg_end(x, y, p, e, 8192, dx0, dy0, xaxis, q13) == (if 0 <= n0 < 8192 && 0 <= n1
                < 8192 {
                seg_end(n0, n1, s.2, e, 8192, dx0, dy0, xaxis, q13)
            } else {
                (n0, n1, s.2)
            })
        }),
    decreases e - bres_dom(x, y, xaxis),
{
    let bx = x / 64;
    let by = y / 64;
    let le = if xaxis {
        e - bx * 64
    } else {
        e - by * 64
    };
    let lx = x - bx * 64;
    let ly = y - by * 64;
    assert(0 <= lx < 64 && 0 <= ly < 64);
    if bres_dom(x, y, xaxis) >= e {
    } else {
        let st = bres_step(x, y, p, dx0, dy0, xaxis, q13);
        let stl = bres_step(lx, ly, p, dx0, dy0, xaxis, q13);
        assert(st == (stl.0 + bx * 64, stl.1 + by * 64, stl.2));
        if 0 <= stl.0 < 64 && 0 <= stl.1 < 64 {
            assert(0 <= st.0 < 8192 && 0 <= st.1 < 8192);
            assert(st.0 / 64 == bx && st.1 / 64 == by);
            lemma_seg_block_end(st.0, st.1, st.2, e, dx0, dy0, xaxis, q13);
            assert(seg_end(stl.0, stl.1, stl.2, le, 64, dx0, dy0, xaxis, q13) == seg_end(
                lx,
                ly,
                p,
                le,
                64,
                dx0,
                dy0,
                xaxis,
                q13,
            ));
        } else {
            assert(seg_end(lx, ly, p, le, 64, dx0, dy0, xaxis, q13) == stl);
        }
    }
}

/// A tile-level walk ends in the same state as one flat walk clipped to the
/// tile: the block dispatch changes nothing about where a segment stops.
pub proof fn lemma_tile_flat_end(
    x: int,
    y: int,
    p: int,
    e: int,
    dx0: int,
    dy0: int,
    xaxis: bool,
    q13: bool,
)
    requires
        0 <= x < 8192,
        0 <= y < 8192,
    ensures
        tile_seg_end(x, y, p, e, dx0, dy0, xaxis, q13) == seg_end(
            x,
            y,
            p,
            e,
            8192,
            dx0,
            dy0,
            xaxis,
            q13,
        ),
    decreases e - bres_dom(x, y, xaxis),
{
    if bres_dom(x, y, xaxis) >= e {
    } else {
        let bx = x / 64;
        let by = y / 64;
        let le = if xaxis {
            e - bx * 64
        } else {
            e - by * 64
        };
        lemma_seg_block_end(x, y, p, e, dx0, dy0, xaxis, q13);
        lemma_seg_end_dom(x - bx * 64, y - by * 64, p, le, 64, dx0, dy0, xaxis, q13);
        let s = seg_end(x - bx * 64, y - by * 64, p, le, 64, dx0, dy0, xaxis, q13);
        let n0 = s.0 + bx * 64;
        let n1 = s.1 + by * 64;
        assert(tile_seg_end(x, y, p, e, dx0, dy0, xaxis, q13) == tile_seg_end(
            n0,
            n1,
            s.2,
            e,
            dx0,
            dy0,
            xaxis,
            q13,
        ));
        if 0 <= n0 < 8192 && 0 <= n1 < 8192 {
            lemma_tile_flat_end(n0, n1, s.2, e, dx0, dy0, xaxis, q13);
            assert(seg_end(x, y, p, e, 8192, dx0, dy0, xaxis, q13) == seg_end(
                n0,
                n1,
                s.2,
                e,
                8192,
                dx0,
                dy0,
                xaxis,
                q13,
            ));
        } else {
            assert(tile_seg_end(n0, n1, s.2, e, dx0, dy0, xaxis, q13) == (n0, n1, s.2));
            assert(seg_end(x, y, p, e, 8192, dx0, dy0, xaxis, q13) == (n0, n1, s.2));
        }
    }
}

/// A pixel of one block segment is a pixel of the flat walk clipped to the
/// whole tile: growing the window never removes a pixel.
proof fn lemma_seg_sub(
    px: int,
    py: int,
    x: int,
    y: int,
    p: int,
    e: int,
    obx: int,
    oby: int,
    dx0: int,
    dy0: int,
    xaxis: bool,
    q13: bool,
)
    requires
        0 <= obx,
        0 <= oby,
        obx + 64 <= 8192,
        oby + 64 <= 8192,
        seg_hit(
            px,
            py,
            x,
            y,
            p,
            if xaxis {
                e - obx
            } else {
                e - oby
            },
            64,
            dx0,
            dy0,
            xaxis,
            q13,
        ),
    ensures
        seg_hit(px + obx, py + oby, x + obx, y + oby, p, e, 8192, dx0, dy0, xaxis, q13),
    decreases (if xaxis {
        e - obx
    } else {
        e - oby
    }) - bres_dom(x, y, xaxis),
{
    let le = if xaxis {
        e - obx
    } else {
        e - oby
    };
    if px == x && py == y {
    } else if bres_dom(x, y, xaxis) >= le {
    } else {
        let s = bres_step(x, y, p, dx0, dy0, xaxis, q13);
        assert(bres_step(x + obx, y + oby, p, dx0, dy0, xaxis, q13) == (
        s.0 + obx,
        s.1 + oby,
        s.2,
        ));
        if 0 <= s.0 < 64 && 0 <= s.1 < 64 {
            lemma_seg_sub(px, py, s.0, s.1, s.2, e, obx, oby, dx0, dy0, xaxis, q13);
        }
    }
}

/// A pixel the tile-wide flat walk draws from the end of a block segment is
/// already drawn from the segment's start.
proof fn lemma_seg_reach(
    px: int,
    py: int,
    x: int,
    y: int,
    p: int,
    e: int,
    obx: int,
    oby: int,
    dx0: int,
    dy0: int,
    xaxis: bool,
    q13: bool,
)
    requires
        0 <= obx,
        0 <= oby,
        obx + 64 <= 8192,
        oby + 64 <= 8192,
        ({
            let le = if xaxis {
                e - obx
            } else {
                e - oby
            };
            let s = seg_end(x, y, p, le, 64, dx0, dy0, xaxis, q13);
            0 <= s.0 + obx < 8192 && 0 <= s.1 + oby < 8192 && seg_hit(
                px,
                py,
                s.0 + obx,
                s.1 + oby,
                s.2,
                e,
                8192,
                dx0,
                dy0,
                xaxis,
                q13,
            )
        }),
    ensures
        seg_hit(px, py, x + obx, y + oby, p, e, 8192, dx0, dy0, xaxis, q13),
    decreases (if xaxis {
        e - obx
    } else {
        e - oby
    }) - bres_dom(x, y, xaxis),
{
    let le = if xaxis {
        e - obx
    } else {
        e - oby
    };
    if bres_dom(x, y, xaxis) >= le {
    } else {
        let s = bres_step(x, y, p, dx0, dy0, xaxis, q13);
        assert(bres_step(x + obx, y + oby, p, dx0, dy0, xaxis, q13) == (
        s.0 + obx,
        s.1 + oby,
        s.2,
        ));
        if 0 <= s.0 < 64 && 0 <= s.1 < 64 {
            lemma_seg_reach(px, py, s.0, s.1, s.2, e, obx, oby, dx0, dy0, xaxis, q13);
        }
    }
}

/// Every pixel the tiled walk draws inside a tile is a pixel of the flat
/// walk clipped to that tile: the block dispatch never draws off the walk.
pub proof fn lemma_tile_sub_flat(
    px: int,
    py: int,
    x: int,
    y: int,
    p: int,
    e: int,
    dx0: int,
    dy0: int,
    xaxis: bool,
    q13: bool,
)
    requires
        tile_seg_hit(px, py, x, y, p, e, dx0, dy0, xaxis, q13),
    ensures
        seg_hit(px, py, x, y, p, e, 8192, dx0, dy0, xaxis, q13),
        0 <= px < 8192,
        0 <= py < 8192,
    decreases e - bres_dom(x, y, xaxis),
{
    let bx = x / 64;
    let by = y / 64;
    let le = if xaxis {
        e - bx * 64
    } else {
        e - by * 64
    };
    let lx = x - bx * 64;
    let ly = y - by * 64;
    assert(0 <= lx < 64 && 0 <= ly < 64);
    let s = seg_end(lx, ly, p, le, 64, dx0, dy0, xaxis, q13);
    let n0 = s.0 + bx * 64;
    let n1 = s.1 + by * 64;
    if 0 <= px - bx * 64 < 64 && 0 <= py - by * 64 < 64 && seg_hit(
        px - bx * 64,
        py - by * 64,
        lx,
        ly,
        p,
        le,
        64,
        dx0,
        dy0,
        xaxis,
        q13,
    ) {
        lemma_seg_sub(px - bx * 64, py - by * 64, lx, ly, p, e, bx * 64, by * 64, dx0, dy0, xaxis, q13);
    } else {
        assert(bres_dom(x, y, xaxis) < e && 0 <= x < 8192 && 0 <= y < 8192);
        assert(tile_seg_hit(px, py, n0, n1, s.2, e, dx0, dy0, xaxis, q13));
        lemma_seg_end_dom(lx, ly, p, le, 64, dx0, dy0, xaxis, q13);
        lemma_tile_sub_flat(px, py, n0, n1, s.2, e, dx0, dy0, xaxis, q13);
        assert(0 <= n0 < 8192 && 0 <= n1 < 8192);
        lemma_seg_reach(px, py, lx, ly, p, e, bx * 64, by * 64, dx0, dy0, xaxis, q13);
    }
    lemma_seg_hit_range(px, py, x, y, p, e, 8192, dx0, dy0, xaxis, q13);
}

/// Bresenham continuity inside a tile: a walk dispatched block by block,
/// with the error term carried across each boundary, draws exactly the
/// pixels of one flat walk over the whole tile. The one state this does not
/// speak of is the pixel at the end coordinate itself.
pub proof fn lemma_tile_flat(
    px: int,
    py: int,
    x: int,
    y: int,
    p: int,
    e: int,
    dx0: int,
    dy0: int,
    xaxis: bool,
    q13: bool,
)
    requires
        0 <= x < 8192,
        0 <= y < 8192,
        0 <= px < 8192,
        0 <= py < 8192,
        bres_dom(px, py, xaxis) < e,
    ensures
        tile_seg_hit(px, py, x, y, p, e, dx0, dy0, xaxis, q13) == seg_hit(
            px,
            py,
            x,
            y,
            p,
            e,
            8192,
            dx0,
            dy0,
            xaxis,
            q13,
        ),
    decreases e - bres_dom(x, y, xaxis),
{
    let bx = x / 64;
    let by = y / 64;
    let le = if xaxis {
        e - bx * 64
    } else {
        e - by * 64
    };
    if bres_dom(x, y, xaxis) >= e {
        assert(!(px == x && py == y));
        assert(!seg_hit(px, py, x, y, p, e, 8192, dx0, dy0, xaxis, q13));
        assert(!tile_seg_hit(px, py, x, y, p, e, dx0, dy0, xaxis, q13));
    } else {
        lemma_seg_block_decompose(px, py, x, y, p, e, dx0, dy0, xaxis, q13);
        let s = seg_end(x - bx * 64, y - by * 64, p, le, 64, dx0, dy0, xaxis, q13);
        let nx = s.0 + bx * 64;
        let ny = s.1 + by * 64;
        lemma_seg_end_dom(x - bx * 64, y - by * 64, p, le, 64, dx0, dy0, xaxis, q13);
        if 0 <= nx < 8192 && 0 <= ny < 8192 {
            if bres_dom(nx, ny, xaxis) < e {
                lemma_tile_flat(px, py, nx, ny, s.2, e, dx0, dy0, xaxis, q13);
            } else {
                assert(!(px == nx && py == ny));
                assert(!seg_hit(px, py, nx, ny, s.2, e, 8192, dx0, dy0, xaxis, q13));
                assert(!tile_seg_hit(px, py, nx, ny, s.2, e, dx0, dy0, xaxis, q13));
            }
        } else {
            assert(!tile_seg_hit(px, py, nx, ny, s.2, e, dx0, dy0, xaxis, q13));
        }
    }
}

/// Whether any pixel of a tile is visited.
pub open spec fn tile_any(t: Tile) -> bool {
    exists|bx: int, by: int| #[trigger] t.block_present(bx, by) && block_any(t.block_view(bx, by))
}

/// A sparse 128 x 128 grid of blocks. A slot holds `None` until a line or an
/// import first touches the block; once created a block persists for the
/// lifetime of the tile.
pub struct Tile {
    blocks: Vec<Option<Block>>,
}

impl Tile {
    /// The grid always has exactly 128 * 128 slots and every present block
    /// holds exactly 515 bytes.
    pub closed spec fn wf(self) -> bool {
        &&& self.blocks@.len() == 16384
        &&& forall|i: int|
            0 <= i < 16384 ==> (match #[trigger] self.blocks@[i] {
                Some(b) => b.wf(),
                None => true,
            })
    }

    /// Whether the block at block coordinates (bx, by) exists.
    pub closed spec fn block_present(self, bx: int, by: int) -> bool {
        0 <= bx < 128 && 0 <= by < 128 && self.blocks@[bx * 128 + by] is Some
    }

    /// The bytes of the block at (bx, by).
    pub closed spec fn block_view(self, bx: int, by: int) -> Seq<u8> {
        match self.blocks@[bx * 128 + by] {
            Some(b) => b@,
            None => Seq::empty(),
        }
    }

    /// Whether tile-local pixel (x, y) is visited: its block exists and the
    /// bit is set. An absent block means nothing is visited there.
    pub open spec fn visited(self, x: int, y: int) -> bool {
        self.block_present(x / 64, y / 64) && bit_at(self.block_view(x / 64, y / 64), x % 64, y % 64)
    }

    /// Creates a tile with no blocks.
    pub fn new() -> (r: Tile)
        ensures
            r.wf(),
            forall|bx: int, by: int| !r.block_present(bx, by),
            forall|x: int, y: int| !r.visited(x, y),
    {
        let blocks: Vec<Option<Block>> = vec_none_16384();
        Tile { blocks }
    }

    /// Returns the block at (x, y) if it exists.
    pub fn get_block(&self, x: i64, y: i64) -> (r: Option<&Block>)
        requires
            self.wf(),
            0 <= x < 128,
            0 <= y < 128,
        ensures
            match r {
                Some(b) => self.block_present(x as int, y as int) && b.wf() && b@
                    == self.block_view(x as int, y as int),
                None => !self.block_present(x as int, y as int),
            },
    {
        let idx = (x as usize) * 128 + (y as usize);
        match &self.blocks[idx] {
            Some(b) => Some(b),
            None => None,
        }
    }

    /// Stores `block` at block coordinates (x, y), replacing any block
    /// already there; every other slot keeps its contents.
    pub fn add_by_blocks(&mut self, x: i64, y: i64, block: Block)
        requires
            old(self).wf(),
            0 <= x < 128,
            0 <= y < 128,
            block.wf(),
        ensures
            final(self).wf(),
            final(self).block_present(x as int, y as int),
            final(self).block_view(x as int, y as int) == block@,
            forall|bx: int, by: int|
                0 <= bx < 128 && 0 <= by < 128 && !(bx == x && by == y) ==> #[trigger] final(self).block_present(bx, by) == old(self).block_present(bx, by),
            forall|bx: int, by: int|
                0 <= bx < 128 && 0 <= by < 128 && !(bx == x && by == y) ==> #[trigger] final(self).block_view(bx, by) == old(self).block_view(bx, by),
    {
        let idx = (x as usize) * 128 + (y as usize);
        self.blocks[idx] = Some(block);
        proof {
            assert forall|bx: int, by: int|
                0 <= bx < 128 && 0 <= by < 128 && !(bx == x && by == y) implies final(self).block_present(bx, by) == old(self).block_present(bx, by) && final(self).block_view(bx, by) == old(self).block_view(bx, by) by {
                assert(bx * 128 + by != x * 128 + y) by (nonlinear_arith)
                    requires
                        0 <= bx < 128,
                        0 <= by < 128,
                        0 <= x < 128,
                        0 <= y < 128,
                        !(bx == x && by == y),
                ;
            }
        }
    }

    /// Whether any pixel of this tile is visited: the max-pooling test for
    /// a tile drawn below one pixel of output.
    pub fn any_visited(&self) -> (r: bool)
        requires
            self.wf(),
        ensures
            r == tile_any(*self),
    {
        let mut s: usize = 0;
        while s < 16384
            invariant
                self.wf(),
                s <= 16384,
                forall|bx: int, by: int|
                    0 <= bx < 128 && 0 <= by < 128 && bx * 128 + by < s ==> !(#[trigger] self.block_present(
                        bx,
                        by,
                    ) && block_any(self.block_view(bx, by))),
            decreases 16384 - s,
        {
            let bx = (s / 128) as i64;
            let by = (s % 128) as i64;
            proof {
                assert(bx * 128 + by == s);
            }
            match self.get_block(bx, by) {
                Some(b) => {
                    if b.any_visited() {
                        proof {
                            assert(self.block_present(bx as int, by as int) && block_any(
                                self.block_view(bx as int, by as int),
                            ));
                        }
                        return true;
                    }
                },
                None => {},
            }
            proof {
                assert forall|bx2: int, by2: int|
                    0 <= bx2 < 128 && 0 <= by2 < 128 && bx2 * 128 + by2 < s + 1 implies !(
                #[trigger] self.block_present(bx2, by2) && block_any(self.block_view(bx2, by2))) by {
                    if bx2 * 128 + by2 == s {
                        assert(bx2 == bx && by2 == by);
                    }
                }
            }
            s = s + 1;
        }
        proof {
            assert forall|bx: int, by: int|
                #![trigger self.block_present(bx, by)]
                0 <= bx < 128 && 0 <= by < 128 implies !(self.block_present(bx, by) && block_any(
                self.block_view(bx, by),
            )) by {
                assert(bx * 128 + by < 16384) by (nonlinear_arith)
                    requires
                        0 <= bx < 128,
                        0 <= by < 128,
                ;
            }
        }
        false
    }

    /// Rasterizes one Bresenham segment across this tile, starting at
    /// tile-local pixel (x, y) with error term `p`, until the dominant axis
    /// reaches `e` or the walk leaves the tile. Dispatches block by block,
    /// creating blocks lazily, and carries the walk state across block
    /// boundaries. Returns the state at termination for the caller.
    #[verifier::rlimit(80)]
    pub(crate) fn add_line(
        &mut self,
        x: i64,
        y: i64,
        e: i64,
        p: i64,
        dx0: i64,
        dy0: i64,
        xaxis: bool,
        q13: bool,
    ) -> (r: (i64, i64, i64))
        requires
            old(self).wf(),
            0 <= x < 8192,
            0 <= y < 8192,
            -0x80_0000 <= e <= 0x80_0000,
            0 <= dx0 <= 0x80_0000,
            0 <= dy0 <= 0x80_0000,
            -0x8_0000_0000_0000 <= p <= 0x8_0000_0000_0000,
        ensures
            final(self).wf(),
            (r.0 as int, r.1 as int, r.2 as int) == tile_seg_end(
                x as int,
                y as int,
                p as int,
                e as int,
                dx0 as int,
                dy0 as int,
                xaxis,
                q13,
            ),
            forall|px: int, py: int|
                0 <= px < 8192 && 0 <= py < 8192 ==> #[trigger] final(self).visited(px, py) == (
                old(self).visited(px, py) || tile_seg_hit(
                    px,
                    py,
                    x as int,
                    y as int,
                    p as int,
                    e as int,
                    dx0 as int,
                    dy0 as int,
                    xaxis,
                    q13,
                )),
            forall|bx: int, by: int|
                old(self).block_present(bx, by) ==> #[trigger] final(self).block_present(bx, by),
            forall|bx: int, by: int|
                #[trigger] final(self).block_present(bx, by) ==> old(self).block_present(bx, by)
                    || exists|a: int, b: int|
                    #[trigger] tile_seg_hit(
                        a,
                        b,
                        x as int,
                        y as int,
                        p as int,
                        e as int,
                        dx0 as int,
                        dy0 as int,
                        xaxis,
                        q13,
                    ) && a / 64 == bx && b / 64 == by,
            forall|bx: int, by: int, k: int|
                old(self).block_present(bx, by) && 512 <= k < 515 ==> #[trigger] final(self).block_view(bx, by)[k] == old(self).block_view(bx, by)[k],
    {
        let ghost base = *self;
        let ghost x0 = x as int;
        let ghost y0 = y as int;
        let ghost p0 = p as int;
        let ghost dm0 = bres_dom(x0, y0, xaxis);
        let ghost ei = e as int;
        let ghost dxi = dx0 as int;
        let ghost dyi = dy0 as int;
        let mut x = x;
        let mut y = y;
        let mut p = p;
        loop
            invariant
                self.wf(),
                base.wf(),
                -0x80_0000 <= e <= 0x80_0000,
                0 <= dx0 <= 0x80_0000,
                0 <= dy0 <= 0x80_0000,
                ei == e as int && dxi == dx0 as int && dyi == dy0 as int,
                -1 <= x <= 8192,
                -1 <= y <= 8192,
                0 <= dm0 <= bres_dom(x as int, y as int, xaxis),
                -0x8_0000_0000_0000 <= p0 <= 0x8_0000_0000_0000,
                p0 - (bres_dom(x as int, y as int, xaxis) - dm0) * 0x200_0000 <= p <= p0 + (
                bres_dom(x as int, y as int, xaxis) - dm0) * 0x200_0000,
                tile_seg_end(x as int, y as int, p as int, ei, dxi, dyi, xaxis, q13)
                    == tile_seg_end(x0, y0, p0, ei, dxi, dyi, xaxis, q13),
                forall|px: int, py: int|
                    0 <= px < 8192 && 0 <= py < 8192 ==> (#[trigger] self.visited(px, py)
                        || tile_seg_hit(px, py, x as int, y as int, p as int, ei, dxi, dyi, xaxis, q13))
                        == (base.visited(px, py) || tile_seg_hit(px, py, x0, y0, p0, ei, dxi, dyi, xaxis, q13)),
                forall|px: int, py: int|
                    #[trigger] tile_seg_hit(px, py, x as int, y as int, p as int, ei, dxi, dyi, xaxis, q13)
                        ==> tile_seg_hit(px, py, x0, y0, p0, ei, dxi, dyi, xaxis, q13),
                forall|bx: int, by: int|
                    base.block_present(bx, by) ==> #[trigger] self.block_present(bx, by),
                forall|bx: int, by: int|
                    #[trigger] self.block_present(bx, by) ==> base.block_present(bx, by) || exists|a: int, b: int|
                        #[trigger] tile_seg_hit(a, b, x0, y0, p0, ei, dxi, dyi, xaxis, q13)
                            && a / 64 == bx && b / 64 == by,
                forall|bx: int, by: int, k: int|
                    base.block_present(bx, by) && 512 <= k < 515 ==> #[trigger] self.block_view(
                        bx,
                        by,
                    )[k] == base.block_view(bx, by)[k],
            ensures
                self.wf(),
                (x as int, y as int, p as int) == tile_seg_end(x0, y0, p0, ei, dxi, dyi, xaxis, q13),
                forall|px: int, py: int|
                    0 <= px < 8192 && 0 <= py < 8192 ==> #[trigger] self.visited(px, py) == (
                    base.visited(px, py) || tile_seg_hit(px, py, x0, y0, p0, ei, dxi, dyi, xaxis, q13)),
                forall|bx: int, by: int|
                    base.block_present(bx, by) ==> #[trigger] self.block_present(bx, by),
                forall|bx: int, by: int|
                    #[trigger] self.block_present(bx, by) ==> base.block_present(bx, by) || exists|a: int, b: int|
                        #[trigger] tile_seg_hit(a, b, x0, y0, p0, ei, dxi, dyi, xaxis, q13)
                            && a / 64 == bx && b / 64 == by,
                forall|bx: int, by: int, k: int|
                    base.block_present(bx, by) && 512 <= k < 515 ==> #[trigger] self.block_view(
                        bx,
                        by,
                    )[k] == base.block_view(bx, by)[k],
            decreases e - bres_dom(x as int, y as int, xaxis),
        {
            let dm = if xaxis {
                x
            } else {
                y
            };
            if !(dm < e) {
                proof {
                    assert(tile_seg_end(x as int, y as int, p as int, ei, dxi, dyi, xaxis, q13) == (
                    x as int,
                    y as int,
                    p as int,
                    ));
                    assert forall|px: int, py: int|
                        0 <= px < 8192 && 0 <= py < 8192 implies #[trigger] self.visited(px, py)
                        == (base.visited(px, py) || tile_seg_hit(
                        px,
                        py,
                        x0,
                        y0,
                        p0,
                        ei,
                        dxi,
                        dyi,
                        xaxis,
                        q13,
                    )) by {
                        assert((self.visited(px, py) || tile_seg_hit(
                            px,
                            py,
                            x as int,
                            y as int,
                            p as int,
                            ei,
                            dxi,
                            dyi,
                            xaxis,
                            q13,
                        )) == (base.visited(px, py) || tile_seg_hit(
                            px,
                            py,
                            x0,
                            y0,
                            p0,
                            ei,
                            dxi,
                            dyi,
                            xaxis,
                            q13,
                        )));
                        assert(!tile_seg_hit(px, py, x as int, y as int, p as int, ei, dxi, dyi, xaxis, q13));
                    }
                }
                break;
            }
            if x < 0 || x >= 8192 || y < 0 || y >= 8192 {
                proof {
                    assert(tile_seg_end(x as int, y as int, p as int, ei, dxi, dyi, xaxis, q13) == (
                    x as int,
                    y as int,
                    p as int,
                    ));
                    assert forall|px: int, py: int|
                        0 <= px < 8192 && 0 <= py < 8192 implies #[trigger] self.visited(px, py)
                        == (base.visited(px, py) || tile_seg_hit(
                        px,
                        py,
                        x0,
                        y0,
                        p0,
                        ei,
                        dxi,
                        dyi,
                        xaxis,
                        q13,
                    )) by {
                        assert((self.visited(px, py) || tile_seg_hit(
                            px,
                            py,
                            x as int,
                            y as int,
                            p as int,
                            ei,
                            dxi,
                            dyi,
                            xaxis,
                            q13,
                        )) == (base.visited(px, py) || tile_seg_hit(
                            px,
                            py,
                            x0,
                            y0,
                            p0,
                            ei,
                            dxi,
                            dyi,
                            xaxis,
                            q13,
                        )));
                        assert(!tile_seg_hit(px, py, x as int, y as int, p as int, ei, dxi, dyi, xaxis, q13));
                    }
                }
                break;
            }
            let ghost head = *self;
            let ghost sx = x as int;
            let ghost sy = y as int;
            let ghost sp = p as int;
            let bx = x / 64;
            let by = y / 64;
            let lx = x - bx * 64;
            let ly = y - by * 64;
            let le = if xaxis {
                e - bx * 64
            } else {
                e - by * 64
            };
            proof {
                assert(bx as int == sx / 64 && by as int == sy / 64);
                assert(0 <= lx < 64 && 0 <= ly < 64);
            }
            let idx = (bx as usize) * 128 + (by as usize);
            let created = self.blocks[idx].is_none();
            if created {
                self.blocks[idx] = Some(Block::new());
            }
            let ghost mid = *self;
            let slot = vstd::std_specs::vec::vec_index_mut(&mut self.blocks, idx);
            let taken = slot.take();
            let mut blk = taken.unwrap();
            let ghost obv = blk@;
            let rr = blk.add_line(lx, ly, le, p, dx0, dy0, xaxis, q13);
            let ghost nbv = blk@;
            *slot = Some(blk);
            proof {
                lemma_seg_end_dom(lx as int, ly as int, sp, le as int, 64, dxi, dyi, xaxis, q13);
                lemma_seg_end_p_delta(lx as int, ly as int, sp, le as int, 64, dxi, dyi, xaxis, q13);
                lemma_seg_end_bounds(lx as int, ly as int, sp, le as int, 64, dxi, dyi, xaxis, q13);
                assert(-1 <= rr.0 <= 64 && -1 <= rr.1 <= 64);
            }
            x = rr.0 + bx * 64;
            y = rr.1 + by * 64;
            p = rr.2;
            proof {
                let bxi = bx as int;
                let byi = by as int;
                let lxi = lx as int;
                let lyi = ly as int;
                let lei = le as int;
                let idxi = bxi * 128 + byi;
                let se = seg_end(lxi, lyi, sp, lei, 64, dxi, dyi, xaxis, q13);
                assert(se == (rr.0 as int, rr.1 as int, rr.2 as int));
                assert(x as int == se.0 + bxi * 64 && y as int == se.1 + byi * 64 && p as int == se.2);
                assert(self.blocks@ =~= head.blocks@.update(idxi, Some(blk)));
                assert(blk@ == nbv);
                // the new bytes of the touched block against the bytes before the call
                assert(forall|a: int, b: int|
                    0 <= a < 64 && 0 <= b < 64 ==> #[trigger] bit_at(nbv, a, b) == (bit_at(
                        obv,
                        a,
                        b,
                    ) || seg_hit(a, b, lxi, lyi, sp, lei, 64, dxi, dyi, xaxis, q13)));
                // visited in the new state against the head state, pointwise
                assert forall|px: int, py: int| 0 <= px < 8192 && 0 <= py < 8192 implies (
                #[trigger] self.visited(px, py) || tile_seg_hit(
                    px,
                    py,
                    x as int,
                    y as int,
                    p as int,
                    ei,
                    dxi,
                    dyi,
                    xaxis,
                    q13,
                )) == (base.visited(px, py) || tile_seg_hit(px, py, x0, y0, p0, ei, dxi, dyi, xaxis, q13)) by {
                    assert((head.visited(px, py) || tile_seg_hit(px, py, sx, sy, sp, ei, dxi, dyi, xaxis, q13))
                        == (base.visited(px, py) || tile_seg_hit(px, py, x0, y0, p0, ei, dxi, dyi, xaxis, q13)));
                    assert(tile_seg_hit(px, py, sx, sy, sp, ei, dxi, dyi, xaxis, q13) == ((0 <= px
                        - bxi * 64 < 64 && 0 <= py - byi * 64 < 64 && seg_hit(
                        px - bxi * 64,
                        py - byi * 64,
                        lxi,
                        lyi,
                        sp,
                        lei,
                        64,
                        dxi,
                        dyi,
                        xaxis,
                        q13,
                    )) || tile_seg_hit(px, py, x as int, y as int, p as int, ei, dxi, dyi, xaxis, q13)));
                    if px / 64 == bxi && py / 64 == byi {
                        assert(0 <= px - bxi * 64 < 64 && 0 <= py - byi * 64 < 64);
                        assert(px % 64 == px - bxi * 64 && py % 64 == py - byi * 64);
                        assert(self.block_present(bxi, byi) && self.block_view(bxi, byi) == nbv);
                        assert(self.visited(px, py) == bit_at(nbv, px - bxi * 64, py - byi * 64));
                        if created {
                            assert(!head.block_present(bxi, byi));
                            assert(!head.visited(px, py));
                            assert(forall|a: int, b: int|
                                0 <= a < 64 && 0 <= b < 64 ==> !#[trigger] bit_at(obv, a, b));
                        } else {
                            assert(head.block_present(bxi, byi) && head.block_view(bxi, byi) == obv);
                            assert(head.visited(px, py) == bit_at(obv, px - bxi * 64, py - byi * 64));
                        }
                    } else {
                        assert(!(0 <= px - bxi * 64 < 64) || !(0 <= py - byi * 64 < 64));
                        assert(px / 64 * 128 + py / 64 != idxi) by (nonlinear_arith)
                            requires
                                0 <= px / 64 < 128,
                                0 <= py / 64 < 128,
                                0 <= bxi < 128,
                                0 <= byi < 128,
                                idxi == bxi * 128 + byi,
                                !(px / 64 == bxi && py / 64 == byi),
                        ;
                        assert(self.visited(px, py) == head.visited(px, py));
                    }
                }
                // the walk ahead only shrinks
                assert forall|px: int, py: int| #[trigger] tile_seg_hit(
                    px,
                    py,
                    x as int,
                    y as int,
                    p as int,
                    ei,
                    dxi,
                    dyi,
                    xaxis,
                    q13,
                ) implies tile_seg_hit(px, py, x0, y0, p0, ei, dxi, dyi, xaxis, q13) by {
                    assert(tile_seg_hit(px, py, sx, sy, sp, ei, dxi, dyi, xaxis, q13));
                }
                // the tail of the walk is unchanged
                assert(tile_seg_end(sx, sy, sp, ei, dxi, dyi, xaxis, q13) == tile_seg_end(
                    x as int,
                    y as int,
                    p as int,
                    ei,
                    dxi,
                    dyi,
                    xaxis,
                    q13,
                ));
                // presence: only the touched block may appear, and its start
                // pixel is a witness that the walk reaches it
                assert(tile_seg_hit(sx, sy, sx, sy, sp, ei, dxi, dyi, xaxis, q13)) by {
                    assert(seg_hit(lxi, lyi, lxi, lyi, sp, lei, 64, dxi, dyi, xaxis, q13));
                }
                assert forall|bxx: int, byy: int| #[trigger] self.block_present(bxx, byy) implies
                    base.block_present(bxx, byy) || exists|a: int, b: int|
                        #[trigger] tile_seg_hit(a, b, x0, y0, p0, ei, dxi, dyi, xaxis, q13) && a
                            / 64 == bxx && b / 64 == byy by {
                    if bxx == bxi && byy == byi {
                        if !base.block_present(bxx, byy) {
                            assert(tile_seg_hit(sx, sy, x0, y0, p0, ei, dxi, dyi, xaxis, q13));
                            assert(sx / 64 == bxx && sy / 64 == byy);
                        }
                    } else {
                        assert(bxx * 128 + byy != idxi) by (nonlinear_arith)
                            requires
                                0 <= bxx < 128,
                                0 <= byy < 128,
                                0 <= bxi < 128,
                                0 <= byi < 128,
                                idxi == bxi * 128 + byi,
                                !(bxx == bxi && byy == byi),
                        ;
                        assert(self.block_present(bxx, byy) == head.block_present(bxx, byy));
                    }
                }
                assert forall|bxx: int, byy: int| base.block_present(bxx, byy) implies
                    #[trigger] self.block_present(bxx, byy) by {
                    if bxx == bxi && byy == byi {
                        assert(self.blocks@[idxi] is Some);
                    } else {
                        assert(bxx * 128 + byy != idxi) by (nonlinear_arith)
                            requires
                                0 <= bxx < 128,
                                0 <= byy < 128,
                                0 <= bxi < 128,
                                0 <= byi < 128,
                                idxi == bxi * 128 + byi,
                                !(bxx == bxi && byy == byi),
                        ;
                        assert(self.block_present(bxx, byy) == head.block_present(bxx, byy));
                    }
                }
                // trailer bytes of blocks that existed at entry are kept
                assert forall|bxx: int, byy: int, k: int|
                    base.block_present(bxx, byy) && 512 <= k < 515 implies #[trigger] self.block_view(
                    bxx,
                    byy,
                )[k] == base.block_view(bxx, byy)[k] by {
                    if bxx == bxi && byy == byi {
                        assert(head.block_present(bxx, byy));
                        assert(!created);
                        assert(obv == head.block_view(bxx, byy));
                        assert(self.block_view(bxx, byy) == nbv);
                        assert(nbv[k] == obv[k]);
                    } else {
                        assert(bxx * 128 + byy != idxi) by (nonlinear_arith)
                            requires
                                0 <= bxx < 128,
                                0 <= byy < 128,
                                0 <= bxi < 128,
                                0 <= byi < 128,
                                idxi == bxi * 128 + byi,
                                !(bxx == bxi && byy == byi),
                        ;
                        assert(self.block_view(bxx, byy) == head.block_view(bxx, byy));
                    }
                }
            }
        }
        (x, y, p)
    }

    /// Installs the blocks of an inflated snapshot: every nonzero slot of
    /// the table replaces the block at its coordinates with the record it
    /// points at; blocks whose slot is zero are left alone.
    pub(crate) fn import_blocks(&mut self, d: &Vec<u8>)
        requires
            old(self).wf(),
            payload_wf(d@),
        ensures
            final(self).wf(),
            forall|bx: int, by: int|
                0 <= bx < 128 && 0 <= by < 128 ==> (#[trigger] final(self).block_present(bx, by)
                    == (slot_of(d@, by * 128 + bx) != 0 || old(self).block_present(bx, by))),
            forall|bx: int, by: int|
                0 <= bx < 128 && 0 <= by < 128 && slot_of(d@, by * 128 + bx) != 0
                    ==> #[trigger] final(self).block_view(bx, by) == block_bytes(d@, by * 128 + bx),
            forall|bx: int, by: int|
                0 <= bx < 128 && 0 <= by < 128 && slot_of(d@, by * 128 + bx) == 0
                    ==> #[trigger] final(self).block_view(bx, by) == old(self).block_view(bx, by),
    {
        let dn = d.len();
        let mut j: usize = 0;
        while j < 16384
            invariant
                self.wf(),
                j <= 16384,
                dn == d@.len(),
                payload_wf(d@),
                forall|bx: int, by: int|
                    #![trigger self.block_present(bx, by)]
                    #![trigger self.block_view(bx, by)]
                    0 <= bx < 128 && 0 <= by < 128 ==> ({
                        let k = by * 128 + bx;
                        &&& k < j ==> (self.block_present(bx, by) == (slot_of(d@, k) != 0 || old(self).block_present(bx, by)))
                        &&& (k < j && slot_of(d@, k) != 0) ==> self.block_view(bx, by)
                            == block_bytes(d@, k)
                        &&& (k < j && slot_of(d@, k) == 0) ==> self.block_view(bx, by) == old(self).block_view(bx, by)
                        &&& k >= j ==> (self.block_present(bx, by) == old(self).block_present(
                            bx,
                            by,
                        ) && self.block_view(bx, by) == old(self).block_view(bx, by))
                    }),
            decreases 16384 - j,
        {
            let lo = d[2 * j];
            let hi = d[2 * j + 1];
            let s = (lo as usize) + 256 * (hi as usize);
            let bx = (j % 128) as i64;
            let by = (j / 128) as i64;
            let ghost head = *self;
            proof {
                assert(by * 128 + bx == j);
                assert(s as int == slot_of(d@, j as int));
            }
            if s != 0 {
                let start = 32768 + (s - 1) * 515;
                let bytes = sub_vec(d, start, 515);
                let blk = Block::new_with_data(bytes);
                self.add_by_blocks(bx, by, blk);
            }
            proof {
                let j_ = j as int;
                assert forall|bx2: int, by2: int|
                    #![trigger self.block_present(bx2, by2)]
                    #![trigger self.block_view(bx2, by2)]
                    0 <= bx2 < 128 && 0 <= by2 < 128 implies ({
                    let k = by2 * 128 + bx2;
                    &&& k < j_ + 1 ==> (self.block_present(bx2, by2) == (slot_of(d@, k) != 0 || old(self).block_present(bx2, by2)))
                    &&& (k < j_ + 1 && slot_of(d@, k) != 0) ==> self.block_view(bx2, by2)
                        == block_bytes(d@, k)
                    &&& (k < j_ + 1 && slot_of(d@, k) == 0) ==> self.block_view(bx2, by2) == old(self).block_view(bx2, by2)
                    &&& k >= j_ + 1 ==> (self.block_present(bx2, by2) == old(self).block_present(
                        bx2,
                        by2,
                    ) && self.block_view(bx2, by2) == old(self).block_view(bx2, by2))
                }) by {
                    let k = by2 * 128 + bx2;
                    if k != j_ {
                        assert(!(bx2 == bx && by2 == by));
                        assert(self.block_present(bx2, by2) == head.block_present(bx2, by2)
                            && self.block_view(bx2, by2) == head.block_view(bx2, by2));
                    }
                }
            }
            j = j + 1;
        }
        proof {
            assert forall|bx: int, by: int|
                #![trigger self.block_present(bx, by)]
                #![trigger self.block_view(bx, by)]
                0 <= bx < 128 && 0 <= by < 128 implies by * 128 + bx < 16384 by {
                assert(by * 128 + bx < 16384) by (nonlinear_arith)
                    requires
                        0 <= bx < 128,
                        0 <= by < 128,
                ;
            }
        }
    }
}

/// A fresh vector of 16384 empty slots.
fn vec_none_16384() -> (r: Vec<Option<Block>>)
    ensures
        r@.len() == 16384,
        forall|i: int| 0 <= i < 16384 ==> #[trigger] r@[i] is None,
{
    let mut v: Vec<Option<Block>> = Vec::new();
    let mut i: usize = 0;
    while i < 16384
        invariant
            i <= 16384,
            v@.len() == i,
            forall|j: int| 0 <= j < i ==> #[trigger] v@[j] is None,
        decreases 16384 - i,
    {
        v.push(None);
        i = i + 1;
    }
    v
}

} // verus!

