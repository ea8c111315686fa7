//! The top level of the pyramid: the whole planet as a sparse 512 x 512 grid
//! of tiles, addressed by tile key, with line input in projected pixels.

use vstd::prelude::*;
use std::collections::HashMap;
use crate::tile::Tile;
use crate::tile::{tile_seg_hit, tile_seg_end, lemma_tile_seg_end_dom};
use crate::tile::{lemma_tile_flat, lemma_tile_flat_end, lemma_tile_sub_flat};
use crate::bres::{flat_hit, lemma_flat_box_decompose, seg_hit, seg_end, lemma_seg_end_dom, lemma_seg_in_flat, lemma_flat_reach};
use crate::block::Block;
use crate::FogError;
use crate::codec::{cipher_digit, digits_valid, digits_value, decode_filename, slot_of, block_bytes, payload_wf, zlib_inflated, snapshot_ok, inflate_zlib, sub_vec, lemma_digits_value_mono};
use crate::bres::bres_dom;
use vstd::string::StringSliceAdditionalSpecFns;

verus! {

broadcast use vstd::std_specs::hash::group_hash_axioms;

/// How a tile column is reduced to the world width of 512: the remainder with
/// the sign of the argument, exactly as the widening antimeridian arithmetic
/// expects. Columns past the east edge wrap to the west.
pub open spec fn wrap512(t: int) -> int {
    if t >= 0 {
        t % 512
    } else {
        -((-t) % 512)
    }
}

/// The key under which tile (tx, ty) is stored: the two coordinates packed
/// into the high and low halves of a u128.
pub closed spec fn key_of(tx: i64, ty: i64) -> u128 {
    (((tx as u64) as u128) * 0x1_0000_0000_0000_0000 + ((ty as u64) as u128)) as u128
}

/// Distinct tile coordinates are stored under distinct keys.
pub proof fn lemma_key_of_injective(a: i64, b: i64, c: i64, d: i64)
    requires
        key_of(a, b) == key_of(c, d),
    ensures
        a == c && b == d,
{
    let ah = (a as u64) as u128;
    let al = (b as u64) as u128;
    let ch = (c as u64) as u128;
    let cl = (d as u64) as u128;
    assert(ah == ch && al == cl) by (nonlinear_arith)
        requires
            ah * 0x1_0000_0000_0000_0000 + al == ch * 0x1_0000_0000_0000_0000 + cl,
            al < 0x1_0000_0000_0000_0000,
            cl < 0x1_0000_0000_0000_0000,
            ah < 0x1_0000_0000_0000_0000,
            ch < 0x1_0000_0000_0000_0000,
    ;
    assert(a as u64 == c as u64 ==> a == c) by (bit_vector);
    assert(b as u64 == d as u64 ==> b == d) by (bit_vector);
}

/// Whether pixel (lx, ly) of the tile stored under key (tx, ty) is drawn by
/// a walk over the whole pixel grid that starts at (x, y) with error term
/// `p` and runs until the dominant axis reaches `e`. The walk dispatches
/// tile by tile; tiles are never missing, so nothing is clipped, and the
/// tile column wraps modulo the world width.
pub open spec fn map_seg_hit(
    tx: i64,
    ty: i64,
    lx: int,
    ly: int,
    x: int,
    y: int,
    p: int,
    e: int,
    dx0: int,
    dy0: int,
    xaxis: bool,
    q13: bool,
) -> bool
    decreases e - bres_dom(x, y, xaxis),
    via map_seg_hit_dec
{
    if bres_dom(x, y, xaxis) >= e {
        false
    } else {
        let gx = x / 8192;
        let gy = y / 8192;
        let le = if xaxis {
            e - gx * 8192
        } else {
            e - gy * 8192
        };
        let hit = tx as int == wrap512(gx) && ty as int == gy && tile_seg_hit(
            lx,
            ly,
            x - gx * 8192,
            y - gy * 8192,
            p,
            le,
            dx0,
            dy0,
            xaxis,
            q13,
        );
        let s = tile_seg_end(x - gx * 8192, y - gy * 8192, p, le, dx0, dy0, xaxis, q13);
        hit || map_seg_hit(tx, ty, lx, ly, s.0 + gx * 8192, s.1 + gy * 8192, s.2, e, dx0, dy0, xaxis, q13)
    }
}

#[via_fn]
proof fn map_seg_hit_dec(
    tx: i64,
    ty: i64,
    lx: int,
    ly: int,
    x: int,
    y: int,
    p: int,
    e: int,
    dx0: int,
    dy0: int,
    xaxis: bool,
    q13: bool,
) {
    if bres_dom(x, y, xaxis) < e {
        let gx = x / 8192;
        let gy = y / 8192;
        let le = if xaxis {
            e - gx * 8192
        } else {
            e - gy * 8192
        };
        lemma_tile_seg_end_dom(x - gx * 8192, y - gy * 8192, p, le, dx0, dy0, xaxis, q13);
    }
}

/// The state in which a map-level walk terminates: the first state whose
/// dominant coordinate has reached `e`.
pub open spec fn map_seg_end(
    x: int,
    y: int,
    p: int,
    e: int,
    dx0: int,
    dy0: int,
    xaxis: bool,
    q13: bool,
) -> (int, int, int)
    decreases e - bres_dom(x, y, xaxis),
    via map_seg_end_dec
{
    if bres_dom(x, y, xaxis) >= e {
        (x, y, p)
    } else {
        let gx = x / 8192;
        let gy = y / 8192;
        let le = if xaxis {
            e - gx * 8192
        } else {
            e - gy * 8192
        };
        let s = tile_seg_end(x - gx * 8192, y - gy * 8192, p, le, dx0, dy0, xaxis, q13);
        map_seg_end(s.0 + gx * 8192, s.1 + gy * 8192, s.2, e, dx0, dy0, xaxis, q13)
    }
}

#[via_fn]
proof fn map_seg_end_dec(
    x: int,
    y: int,
    p: int,
    e: int,
    dx0: int,
    dy0: int,
    xaxis: bool,
    q13: bool,
) {
    if bres_dom(x, y, xaxis) < e {
        let gx = x / 8192;
        let gy = y / 8192;
        let le = if xaxis {
            e - gx * 8192
        } else {
            e - gy * 8192
        };
        lemma_tile_seg_end_dom(x - gx * 8192, y - gy * 8192, p, le, dx0, dy0, xaxis, q13);
    }
}

/// The whole visit history: a sparse grid of tiles covering the planet,
/// stored as a key index into a dense pool.
pub struct FogMap {
    index: HashMap<u128, usize>,
    tiles: Vec<Tile>,
}

impl FogMap {
    /// Every key points into the pool, no two keys share a pool entry, and
    /// every pooled tile is well formed.
    pub closed spec fn wf(self) -> bool {
        &&& forall|k: u128|
            self.index@.contains_key(k) ==> (#[trigger] self.index@[k]) < self.tiles@.len()
        &&& forall|k1: u128, k2: u128|
            #![trigger self.index@[k1], self.index@[k2]]
            self.index@.contains_key(k1) && self.index@.contains_key(k2) && k1 != k2
                ==> self.index@[k1] != self.index@[k2]
        &&& forall|i: int| 0 <= i < self.tiles@.len() ==> (#[trigger] self.tiles@[i]).wf()
    }

    /// Whether a tile is stored under key (tx, ty).
    pub closed spec fn tile_present(self, tx: i64, ty: i64) -> bool {
        self.index@.contains_key(key_of(tx, ty))
    }

    /// The tile stored under key (tx, ty).
    pub closed spec fn tile_at(self, tx: i64, ty: i64) -> Tile {
        self.tiles@[self.index@[key_of(tx, ty)] as int]
    }

    /// Whether pixel (x, y) of the tile under key (tx, ty) is visited. An
    /// absent tile has no visited pixels.
    pub open spec fn visited(self, tx: i64, ty: i64, x: int, y: int) -> bool {
        self.tile_present(tx, ty) && self.tile_at(tx, ty).visited(x, y)
    }

    /// Creates an empty map: no tiles, nothing visited.
    pub fn new() -> (r: FogMap)
        ensures
            r.wf(),
            forall|tx: i64, ty: i64| !r.tile_present(tx, ty),
            forall|tx: i64, ty: i64, x: int, y: int| !r.visited(tx, ty, x, y),
    {
        FogMap { index: HashMap::new(), tiles: Vec::new() }
    }

    /// Returns the tile stored under key (x, y), if any.
    pub fn get_tile(&self, x: i64, y: i64) -> (r: Option<&Tile>)
        requires
            self.wf(),
        ensures
            match r {
                Some(t) => self.tile_present(x, y) && *t == self.tile_at(x, y) && t.wf(),
                None => !self.tile_present(x, y),
            },
    {
        let key = encode_key(x, y);
        match self.index.get(&key) {
            Some(i) => Some(&self.tiles[*i]),
            None => None,
        }
    }

    /// Looks up the tile under (tx, ty), creating an empty one if absent,
    /// and returns its position in the pool.
    fn ensure_tile(&mut self, tx: i64, ty: i64) -> (ti: usize)
        requires
            old(self).wf(),
        ensures
            final(self).wf(),
            final(self).tile_present(tx, ty),
            ti < final(self).pool_len(),
            final(self).tile_at(tx, ty) == final(self).pool_at(ti as int),
            final(self).tile_index(tx, ty) == ti as int,
            old(self).tile_present(tx, ty) ==> *final(self) == *old(self),
            !old(self).tile_present(tx, ty) ==> final(self).pool_len() == old(self).pool_len() + 1
                && ti == old(self).pool_len() && (forall|bx: int, by: int|
                !final(self).tile_at(tx, ty).block_present(bx, by)) && (forall|x: int, y: int|
                !final(self).tile_at(tx, ty).visited(x, y)),
            forall|a: i64, b: i64|
                !(a == tx && b == ty) ==> (#[trigger] final(self).tile_present(a, b) == old(self).tile_present(a, b) && (old(self).tile_present(a, b) ==> final(self).tile_at(a, b)
                    == old(self).tile_at(a, b) && final(self).tile_index(a, b) == old(self).tile_index(a, b))),
    {
        let key = encode_key(tx, ty);
        let present = self.index.contains_key(&key);
        if !present {
            let ti = self.tiles.len();
            self.index.insert(key, ti);
            self.tiles.push(Tile::new());
            proof {
                assert forall|a: i64, b: i64| !(a == tx && b == ty) implies (#[trigger] final(self).tile_present(a, b) == old(self).tile_present(a, b) && (old(self).tile_present(
                    a,
                    b,
                ) ==> final(self).tile_at(a, b) == old(self).tile_at(a, b) && final(self).tile_index(a, b) == old(self).tile_index(a, b))) by {
                    if key_of(a, b) == key {
                        lemma_key_of_injective(a, b, tx, ty);
                    }
                }
            }
            ti
        } else {
            let ti_ref = self.index.get(&key);
            let ti = *ti_ref.unwrap();
            ti
        }
    }

    /// The number of tiles in the pool.
    pub closed spec fn pool_len(self) -> nat {
        self.tiles@.len()
    }

    /// The tile at pool position `i`.
    pub closed spec fn pool_at(self, i: int) -> Tile {
        self.tiles@[i]
    }

    /// The pool position of the tile under key (tx, ty).
    pub closed spec fn tile_index(self, tx: i64, ty: i64) -> int {
        self.index@[key_of(tx, ty)] as int
    }
}

/// The key under which tile (tx, ty) is stored.
fn encode_key(tx: i64, ty: i64) -> (k: u128)
    ensures
        k == key_of(tx, ty),
{
    ((tx as u64) as u128) * 0x1_0000_0000_0000_0000 + ((ty as u64) as u128)
}

/// Floor division by the tile pixel width, also for negative coordinates.
fn floor_div_8192(v: i64) -> (r: i64)
    requires
        -0x180_0000 <= v <= 0x180_0000,
    ensures
        r as int == (v as int) / 8192,
{
    if v >= 0 {
        v / 8192
    } else {
        let q = (-v + 8191) / 8192;
        proof {
            vstd::arithmetic::div_mod::lemma_fundamental_div_mod_converse(
                v as int,
                8192,
                -q as int,
                v + q * 8192,
            );
        }
        -q
    }
}

/// Reduces a tile column to the world width, with the sign of the argument.
fn wrap_512(v: i64) -> (r: i64)
    requires
        -0x8000 <= v <= 0x8000,
    ensures
        r as int == wrap512(v as int),
{
    if v >= 0 {
        v % 512
    } else {
        -((-v) % 512)
    }
}

impl FogMap {
    /// Rasterizes one Bresenham segment into the tile under (tx, ty),
    /// creating the tile if absent, with coordinates local to that tile.
    fn tile_add_line(
        &mut self,
        tx: i64,
        ty: i64,
        lx: i64,
        ly: i64,
        le: i64,
        p: i64,
        dx0: i64,
        dy0: i64,
        xaxis: bool,
        q13: bool,
    ) -> (r: (i64, i64, i64))
        requires
            old(self).wf(),
            0 <= lx < 8192,
            0 <= ly < 8192,
            -0x80_0000 <= le <= 0x80_0000,
            0 <= dx0 <= 0x80_0000,
            0 <= dy0 <= 0x80_0000,
            -0x8_0000_0000_0000 <= p <= 0x8_0000_0000_0000,
        ensures
            final(self).wf(),
            (r.0 as int, r.1 as int, r.2 as int) == tile_seg_end(
                lx as int,
                ly as int,
                p as int,
                le as int,
                dx0 as int,
                dy0 as int,
                xaxis,
                q13,
            ),
            final(self).tile_present(tx, ty),
            forall|px: int, py: int|
                0 <= px < 8192 && 0 <= py < 8192 ==> #[trigger] final(self).visited(tx, ty, px, py)
                    == (old(self).visited(tx, ty, px, py) || tile_seg_hit(
                    px,
                    py,
                    lx as int,
                    ly as int,
                    p as int,
                    le as int,
                    dx0 as int,
                    dy0 as int,
                    xaxis,
                    q13,
                )),
            forall|a: i64, b: i64|
                !(a == tx && b == ty) ==> (#[trigger] final(self).tile_present(a, b) == old(self).tile_present(a, b) && (old(self).tile_present(a, b) ==> final(self).tile_at(a, b)
                    == old(self).tile_at(a, b))),
    {
        let ti = self.ensure_tile(tx, ty);
        let ghost mid = *self;
        let tl = vstd::std_specs::vec::vec_index_mut(&mut self.tiles, ti);
        let rr = tl.add_line(lx, ly, le, p, dx0, dy0, xaxis, q13);
        proof {
            assert(self.tiles@ =~= mid.tiles@.update(ti as int, *tl));
            assert(self.index@ == mid.index@);
            assert(self.tile_present(tx, ty));
            assert(self.tile_at(tx, ty) == *tl);
            assert forall|px: int, py: int| 0 <= px < 8192 && 0 <= py < 8192 implies #[trigger] self.visited(tx, ty, px, py) == (old(self).visited(tx, ty, px, py)
                || tile_seg_hit(
                px,
                py,
                lx as int,
                ly as int,
                p as int,
                le as int,
                dx0 as int,
                dy0 as int,
                xaxis,
                q13,
            )) by {
                assert(mid.tile_at(tx, ty).visited(px, py) == old(self).visited(tx, ty, px, py));
            }
            assert forall|a: i64, b: i64| !(a == tx && b == ty) implies (#[trigger] self.tile_present(a, b) == old(self).tile_present(a, b) && (old(self).tile_present(a, b)
                ==> self.tile_at(a, b) == old(self).tile_at(a, b))) by {
                assert(mid.tile_present(a, b) == old(self).tile_present(a, b));
                assert(self.tile_present(a, b) == mid.tile_present(a, b));
                if mid.tile_present(a, b) {
                    if key_of(a, b) == key_of(tx, ty) {
                        lemma_key_of_injective(a, b, tx, ty);
                    }
                    assert(mid.index@[key_of(a, b)] != mid.index@[key_of(tx, ty)]);
                    assert(self.tile_at(a, b) == mid.tile_at(a, b));
                    assert(mid.tile_at(a, b) == old(self).tile_at(a, b));
                }
            }
        }
        rr
    }

    /// Rasterizes a line segment between two points of the projected pixel
    /// grid at the native zoom of the pyramid, walking tile by tile and
    /// carrying the Bresenham error term across every container boundary.
    /// When the segment spans more than half the world east to west, the
    /// western endpoint is shifted by a full world width first, so the short
    /// arc across the antimeridian is drawn and the touched tile columns
    /// wrap around the east edge.
    pub fn add_line_pixels(&mut self, x0: i64, y0: i64, x1: i64, y1: i64)
        requires
            old(self).wf(),
            0 <= x0 < 4194304,
            0 <= y0 < 4194304,
            0 <= x1 < 4194304,
            0 <= y1 < 4194304,
        ensures
            final(self).wf(),
            forall|tx: i64, ty: i64, lx: int, ly: int|
                0 <= lx < 8192 && 0 <= ly < 8192 ==> #[trigger] final(self).visited(tx, ty, lx, ly)
                    == (old(self).visited(tx, ty, lx, ly) || line_hit(
                    tx,
                    ty,
                    lx,
                    ly,
                    x0 as int,
                    y0 as int,
                    x1 as int,
                    y1 as int,
                )),
            forall|tx: i64, ty: i64|
                old(self).tile_present(tx, ty) ==> #[trigger] final(self).tile_present(tx, ty),
            forall|tx: i64, ty: i64|
                #[trigger] final(self).tile_present(tx, ty) ==> old(self).tile_present(tx, ty)
                    || exists|a: int, b: int|
                    #[trigger] line_hit(tx, ty, a, b, x0 as int, y0 as int, x1 as int, y1 as int),
    {
        let mut xs = x0;
        let mut xt = x1;
        if x1 - x0 > 2097152 {
            xs = x0 + 4194304;
        } else if x0 - x1 > 2097152 {
            xt = x1 + 4194304;
        }
        let dx = xt - xs;
        let dy = y1 - y0;
        let dxa = if dx >= 0 {
            dx
        } else {
            -dx
        };
        let dya = if dy >= 0 {
            dy
        } else {
            -dy
        };
        let q13 = (dx < 0 && dy < 0) || (dx > 0 && dy > 0);
        let xaxis = dya <= dxa;
        let p = if xaxis {
            2 * dya - dxa
        } else {
            2 * dxa - dya
        };
        let fwd = if xaxis {
            dx >= 0
        } else {
            dy >= 0
        };
        let sx = if fwd {
            xs
        } else {
            xt
        };
        let sy = if fwd {
            y0
        } else {
            y1
        };
        let en = if xaxis {
            if fwd {
                xt
            } else {
                xs
            }
        } else {
            if fwd {
                y1
            } else {
                y0
            }
        };
        self.walk(sx, sy, en, p, dxa, dya, xaxis, q13);
        proof {
            let x0i = x0 as int;
            let y0i = y0 as int;
            let x1i = x1 as int;
            let y1i = y1 as int;
            assert(am_adjust(x0i, x1i) == (xs as int, xt as int));
            assert forall|tx: i64, ty: i64, lx: int, ly: int|
                line_hit(tx, ty, lx, ly, x0i, y0i, x1i, y1i) == #[trigger] map_seg_hit(
                tx,
                ty,
                lx,
                ly,
                sx as int,
                sy as int,
                p as int,
                en as int,
                dxa as int,
                dya as int,
                xaxis,
                q13,
            ) by {
            }
            assert forall|tx: i64, ty: i64|
                #[trigger] self.tile_present(tx, ty) implies old(self).tile_present(tx, ty)
                    || exists|a: int, b: int|
                    #[trigger] line_hit(tx, ty, a, b, x0i, y0i, x1i, y1i) by {
                if !old(self).tile_present(tx, ty) {
                    let (a, b) = choose|a: int, b: int|
                        #[trigger] map_seg_hit(
                            tx,
                            ty,
                            a,
                            b,
                            sx as int,
                            sy as int,
                            p as int,
                            en as int,
                            dxa as int,
                            dya as int,
                            xaxis,
                            q13,
                        );
                    assert(line_hit(tx, ty, a, b, x0i, y0i, x1i, y1i));
                }
            }
        }
    }

    /// Walks one Bresenham segment across the map, tile by tile, starting at
    /// pixel (x, y) with error term `p`, until the dominant axis reaches `e`.
    fn walk(&mut self, x: i64, y: i64, e: i64, p: i64, dx0: i64, dy0: i64, xaxis: bool, q13: bool)
        requires
            old(self).wf(),
            0 <= x <= 0x80_0000,
            0 <= y <= 0x80_0000,
            -0x80_0000 <= e <= 0x80_0000,
            0 <= dx0 <= 0x80_0000,
            0 <= dy0 <= 0x80_0000,
            -0x4_0000_0000_0000 <= p <= 0x4_0000_0000_0000,
        ensures
            final(self).wf(),
            forall|tx: i64, ty: i64, lx: int, ly: int|
                0 <= lx < 8192 && 0 <= ly < 8192 ==> #[trigger] final(self).visited(tx, ty, lx, ly)
                    == (old(self).visited(tx, ty, lx, ly) || map_seg_hit(
                    tx,
                    ty,
                    lx,
                    ly,
                    x as int,
                    y as int,
                    p as int,
                    e as int,
                    dx0 as int,
                    dy0 as int,
                    xaxis,
                    q13,
                )),
            forall|tx: i64, ty: i64|
                old(self).tile_present(tx, ty) ==> #[trigger] final(self).tile_present(tx, ty),
            forall|tx: i64, ty: i64|
                #[trigger] final(self).tile_present(tx, ty) ==> old(self).tile_present(tx, ty)
                    || exists|a: int, b: int|
                    #[trigger] map_seg_hit(
                        tx,
                        ty,
                        a,
                        b,
                        x as int,
                        y as int,
                        p as int,
                        e as int,
                        dx0 as int,
                        dy0 as int,
                        xaxis,
                        q13,
                    ),
    {
        let ghost base = *self;
        let ghost x0 = x as int;
        let ghost y0 = y as int;
        let ghost p0 = p as int;
        let ghost dm0 = bres_dom(x0, y0, xaxis);
        let ghost m0 = if xaxis {
            y0
        } else {
            x0
        };
        let ghost ei = e as int;
        let ghost dxi = dx0 as int;
        let ghost dyi = dy0 as int;
        let mut x = x;
        let mut y = y;
        let mut p = p;
        loop
            invariant
                self.wf(),
                base.wf(),
                -0x80_0000 <= e <= 0x80_0000,
                0 <= dx0 <= 0x80_0000,
                0 <= dy0 <= 0x80_0000,
                ei == e as int && dxi == dx0 as int && dyi == dy0 as int,
                0 <= dm0 <= 0x80_0000,
                -0x80_0000 <= m0 <= 0x80_0000,
                dm0 <= bres_dom(x as int, y as int, xaxis) <= 0x80_0000,
                m0 - (bres_dom(x as int, y as int, xaxis) - dm0) <= (if xaxis {
                    y as int
                } else {
                    x as int
                }) <= m0 + (bres_dom(x as int, y as int, xaxis) - dm0),
                -0x4_0000_0000_0000 <= p0 <= 0x4_0000_0000_0000,
                p0 - (bres_dom(x as int, y as int, xaxis) - dm0) * 0x200_0000 <= p <= p0 + (
                bres_dom(x as int, y as int, xaxis) - dm0) * 0x200_0000,
                map_seg_end(x as int, y as int, p as int, ei, dxi, dyi, xaxis, q13) == map_seg_end(
                    x0,
                    y0,
                    p0,
                    ei,
                    dxi,
                    dyi,
                    xaxis,
                    q13,
                ),
                forall|tx: i64, ty: i64, lx: int, ly: int|
                    0 <= lx < 8192 && 0 <= ly < 8192 ==> (#[trigger] self.visited(tx, ty, lx, ly)
                        || map_seg_hit(tx, ty, lx, ly, x as int, y as int, p as int, ei, dxi, dyi, xaxis, q13))
                        == (base.visited(tx, ty, lx, ly) || map_seg_hit(
                        tx,
                        ty,
                        lx,
                        ly,
                        x0,
                        y0,
                        p0,
                        ei,
                        dxi,
                        dyi,
                        xaxis,
                        q13,
                    )),
                forall|tx: i64, ty: i64, lx: int, ly: int|
                    #[trigger] map_seg_hit(tx, ty, lx, ly, x as int, y as int, p as int, ei, dxi, dyi, xaxis, q13)
                        ==> map_seg_hit(tx, ty, lx, ly, x0, y0, p0, ei, dxi, dyi, xaxis, q13),
                forall|tx: i64, ty: i64|
                    base.tile_present(tx, ty) ==> #[trigger] self.tile_present(tx, ty),
                forall|tx: i64, ty: i64|
                    #[trigger] self.tile_present(tx, ty) ==> base.tile_present(tx, ty) || exists|
                        a: int,
                        b: int,
                    |
                        #[trigger] map_seg_hit(tx, ty, a, b, x0, y0, p0, ei, dxi, dyi, xaxis, q13),
            ensures
                self.wf(),
                forall|tx: i64, ty: i64, lx: int, ly: int|
                    0 <= lx < 8192 && 0 <= ly < 8192 ==> #[trigger] self.visited(tx, ty, lx, ly)
                        == (base.visited(tx, ty, lx, ly) || map_seg_hit(
                        tx,
                        ty,
                        lx,
                        ly,
                        x0,
                        y0,
                        p0,
                        ei,
                        dxi,
                        dyi,
                        xaxis,
                        q13,
                    )),
                forall|tx: i64, ty: i64|
                    base.tile_present(tx, ty) ==> #[trigger] self.tile_present(tx, ty),
                forall|tx: i64, ty: i64|
                    #[trigger] self.tile_present(tx, ty) ==> base.tile_present(tx, ty) || exists|
                        a: int,
                        b: int,
                    |
                        #[trigger] map_seg_hit(tx, ty, a, b, x0, y0, p0, ei, dxi, dyi, xaxis, q13),
            decreases e - bres_dom(x as int, y as int, xaxis),
        {
            let dm = if xaxis {
                x
            } else {
                y
            };
            if !(dm < e) {
                proof {
                    assert forall|tx: i64, ty: i64, lx: int, ly: int|
                        0 <= lx < 8192 && 0 <= ly < 8192 implies #[trigger] self.visited(
                        tx,
                        ty,
                        lx,
                        ly,
                    ) == (base.visited(tx, ty, lx, ly) || map_seg_hit(
                        tx,
                        ty,
                        lx,
                        ly,
                        x0,
                        y0,
                        p0,
                        ei,
                        dxi,
                        dyi,
                        xaxis,
                        q13,
                    )) by {
                        assert((self.visited(tx, ty, lx, ly) || map_seg_hit(
                            tx,
                            ty,
                            lx,
                            ly,
                            x as int,
                            y as int,
                            p as int,
                            ei,
                            dxi,
                            dyi,
                            xaxis,
                            q13,
                        )) == (base.visited(tx, ty, lx, ly) || map_seg_hit(
                            tx,
                            ty,
                            lx,
                            ly,
                            x0,
                            y0,
                            p0,
                            ei,
                            dxi,
                            dyi,
                            xaxis,
                            q13,
                        )));
                        assert(!map_seg_hit(tx, ty, lx, ly, x as int, y as int, p as int, ei, dxi, dyi, xaxis, q13));
                    }
                }
                break;
            }
            let ghost head = *self;
            let ghost sx = x as int;
            let ghost sy = y as int;
            let ghost sp = p as int;
            let gx = floor_div_8192(x);
            let gy = floor_div_8192(y);
            let lx = x - gx * 8192;
            let ly = y - gy * 8192;
            let le = if xaxis {
                e - gx * 8192
            } else {
                e - gy * 8192
            };
            let txm = wrap_512(gx);
            let rr = self.tile_add_line(txm, gy, lx, ly, le, p, dx0, dy0, xaxis, q13);
            proof {
                lemma_tile_seg_end_dom(lx as int, ly as int, sp, le as int, dxi, dyi, xaxis, q13);
                crate::tile::lemma_tile_seg_end_p_delta(lx as int, ly as int, sp, le as int, dxi, dyi, xaxis, q13);
                crate::tile::lemma_tile_seg_end_minor_delta(lx as int, ly as int, sp, le as int, dxi, dyi, xaxis, q13);
            }
            x = rr.0 + gx * 8192;
            y = rr.1 + gy * 8192;
            p = rr.2;
            proof {
                let gxi = gx as int;
                let gyi = gy as int;
                let lxi = lx as int;
                let lyi = ly as int;
                let lei = le as int;
                let se = tile_seg_end(lxi, lyi, sp, lei, dxi, dyi, xaxis, q13);
                assert(se == (rr.0 as int, rr.1 as int, rr.2 as int));
                assert(x as int == se.0 + gxi * 8192 && y as int == se.1 + gyi * 8192 && p as int
                    == se.2);
                assert(lxi == sx - gxi * 8192 && lyi == sy - gyi * 8192);
                assert(map_seg_end(sx, sy, sp, ei, dxi, dyi, xaxis, q13) == map_seg_end(
                    x as int,
                    y as int,
                    p as int,
                    ei,
                    dxi,
                    dyi,
                    xaxis,
                    q13,
                ));
                assert forall|tx: i64, ty: i64, lx2: int, ly2: int|
                    0 <= lx2 < 8192 && 0 <= ly2 < 8192 implies (#[trigger] self.visited(
                    tx,
                    ty,
                    lx2,
                    ly2,
                ) || map_seg_hit(tx, ty, lx2, ly2, x as int, y as int, p as int, ei, dxi, dyi, xaxis, q13))
                    == (base.visited(tx, ty, lx2, ly2) || map_seg_hit(
                    tx,
                    ty,
                    lx2,
                    ly2,
                    x0,
                    y0,
                    p0,
                    ei,
                    dxi,
                    dyi,
                    xaxis,
                    q13,
                )) by {
                    assert((head.visited(tx, ty, lx2, ly2) || map_seg_hit(
                        tx,
                        ty,
                        lx2,
                        ly2,
                        sx,
                        sy,
                        sp,
                        ei,
                        dxi,
                        dyi,
                        xaxis,
                        q13,
                    )) == (base.visited(tx, ty, lx2, ly2) || map_seg_hit(
                        tx,
                        ty,
                        lx2,
                        ly2,
                        x0,
                        y0,
                        p0,
                        ei,
                        dxi,
                        dyi,
                        xaxis,
                        q13,
                    )));
                    assert(map_seg_hit(tx, ty, lx2, ly2, sx, sy, sp, ei, dxi, dyi, xaxis, q13) == ((
                    tx as int == wrap512(gxi) && ty as int == gyi && tile_seg_hit(
                        lx2,
                        ly2,
                        lxi,
                        lyi,
                        sp,
                        lei,
                        dxi,
                        dyi,
                        xaxis,
                        q13,
                    )) || map_seg_hit(tx, ty, lx2, ly2, x as int, y as int, p as int, ei, dxi, dyi, xaxis, q13)));
                    if tx == txm && ty == gy {
                        assert(tx as int == wrap512(gxi) && ty as int == gyi);
                    } else {
                        assert(!(tx as int == wrap512(gxi) && ty as int == gyi));
                        assert(self.tile_present(tx, ty) == head.tile_present(tx, ty));
                        if head.tile_present(tx, ty) {
                            assert(self.tile_at(tx, ty) == head.tile_at(tx, ty));
                        }
                        assert(self.visited(tx, ty, lx2, ly2) == head.visited(tx, ty, lx2, ly2));
                    }
                }
                assert forall|tx: i64, ty: i64, lx2: int, ly2: int| #[trigger] map_seg_hit(
                    tx,
                    ty,
                    lx2,
                    ly2,
                    x as int,
                    y as int,
                    p as int,
                    ei,
                    dxi,
                    dyi,
                    xaxis,
                    q13,
                ) implies map_seg_hit(tx, ty, lx2, ly2, x0, y0, p0, ei, dxi, dyi, xaxis, q13) by {
                    assert(map_seg_hit(tx, ty, lx2, ly2, sx, sy, sp, ei, dxi, dyi, xaxis, q13));
                }
                assert(tile_seg_hit(lxi, lyi, lxi, lyi, sp, lei, dxi, dyi, xaxis, q13)) by {
                    assert(crate::bres::seg_hit(
                        lxi - (lxi / 64) * 64,
                        lyi - (lyi / 64) * 64,
                        lxi - (lxi / 64) * 64,
                        lyi - (lyi / 64) * 64,
                        sp,
                        (if xaxis {
                            lei - (lxi / 64) * 64
                        } else {
                            lei - (lyi / 64) * 64
                        }),
                        64,
                        dxi,
                        dyi,
                        xaxis,
                        q13,
                    ));
                }
                assert(map_seg_hit(txm, gy, lxi, lyi, sx, sy, sp, ei, dxi, dyi, xaxis, q13));
                assert forall|tx: i64, ty: i64| #[trigger] self.tile_present(tx, ty) implies
                    base.tile_present(tx, ty) || exists|a: int, b: int|
                        #[trigger] map_seg_hit(tx, ty, a, b, x0, y0, p0, ei, dxi, dyi, xaxis, q13) by {
                    if tx == txm && ty == gy {
                        if !base.tile_present(tx, ty) {
                            assert(map_seg_hit(tx, ty, lxi, lyi, x0, y0, p0, ei, dxi, dyi, xaxis, q13));
                        }
                    } else {
                        assert(self.tile_present(tx, ty) == head.tile_present(tx, ty));
                    }
                }
            }
        }
    }

    /// Imports one file of the legacy snapshot format. The file name carries
    /// the tile id through the substitution cipher; the payload is a zlib
    /// stream that inflates to a slot table and the records of the present
    /// blocks. Each imported block replaces whatever block was at its
    /// coordinates, trailer included; blocks whose slot is zero keep their
    /// previous contents, and every other tile is untouched. A malformed
    /// name or payload fails the call and leaves the map exactly as it was.
    pub fn add_fow_file(&mut self, file_name: &str, data: Vec<u8>) -> (r: Result<(), FogError>)
        requires
            old(self).wf(),
        ensures
            final(self).wf(),
            r is Err ==> *final(self) == *old(self),
            r == Result::<(), FogError>::Err(FogError::BadFilename) <==> decode_filename(
                file_name.spec_bytes(),
            ) is None,
            r == Result::<(), FogError>::Err(FogError::BadPayload) <==> (decode_filename(
                file_name.spec_bytes(),
            ) is Some && !snapshot_ok(data@)),
            r is Ok <==> (decode_filename(file_name.spec_bytes()) is Some && snapshot_ok(data@)),
            r is Ok ==> ({
                let t = decode_filename(file_name.spec_bytes()).unwrap();
                let tx = t.0 as i64;
                let ty = t.1 as i64;
                let d = zlib_inflated(data@).unwrap();
                &&& final(self).tile_present(tx, ty)
                &&& forall|bx: int, by: int|
                    0 <= bx < 128 && 0 <= by < 128 ==> (#[trigger] final(self).tile_at(
                        tx,
                        ty,
                    ).block_present(bx, by) == (slot_of(d, by * 128 + bx) != 0 || (old(
                        self,
                    ).tile_present(tx, ty) && old(self).tile_at(tx, ty).block_present(bx, by))))
                &&& forall|bx: int, by: int|
                    0 <= bx < 128 && 0 <= by < 128 && slot_of(d, by * 128 + bx) != 0
                        ==> #[trigger] final(self).tile_at(tx, ty).block_view(bx, by)
                        == block_bytes(d, by * 128 + bx)
                &&& forall|bx: int, by: int|
                    0 <= bx < 128 && 0 <= by < 128 && slot_of(d, by * 128 + bx) == 0 && old(
                        self,
                    ).tile_present(tx, ty) && old(self).tile_at(tx, ty).block_present(bx, by)
                        ==> #[trigger] final(self).tile_at(tx, ty).block_view(bx, by) == old(
                        self,
                    ).tile_at(tx, ty).block_view(bx, by)
                &&& forall|a: i64, b: i64|
                    !(a == tx && b == ty) ==> (#[trigger] final(self).tile_present(a, b) == old(
                        self,
                    ).tile_present(a, b) && (old(self).tile_present(a, b) ==> final(self).tile_at(
                        a,
                        b,
                    ) == old(self).tile_at(a, b)))
            }),
    {
        let name = file_name.as_bytes();
        let n = name.len();
        if n < 7 {
            return Err(FogError::BadFilename);
        }
        let ghost nb = file_name.spec_bytes();
        let ghost mid_s = nb.subrange(4, nb.len() - 2);
        let end = n - 2;
        let mut id: usize = 0;
        let mut i: usize = 4;
        while i < end
            invariant
                *self == *old(self),
                self.wf(),
                nb == file_name.spec_bytes(),
                4 <= i <= end,
                end == n - 2,
                7 <= n,
                n == nb.len(),
                name@ == nb,
                mid_s == nb.subrange(4, nb.len() - 2),
                digits_valid(mid_s.subrange(0, i - 4)),
                id as int == digits_value(mid_s.subrange(0, i - 4)),
                id <= 262143,
            decreases end - i,
        {
            let c = name[i];
            let dg = decipher(c);
            proof {
                assert(mid_s[i - 4] == nb[i as int]);
            }
            if dg >= 10 {
                proof {
                    assert(cipher_digit(mid_s[i - 4]) >= 10);
                    assert(!digits_valid(mid_s));
                }
                return Err(FogError::BadFilename);
            }
            let next = id * 10 + dg;
            proof {
                let k = i - 4;
                assert(mid_s.subrange(0, k + 1).drop_last() =~= mid_s.subrange(0, k));
                assert(mid_s.subrange(0, k + 1).last() == mid_s[k]);
                assert(digits_value(mid_s.subrange(0, k + 1)) == id * 10 + cipher_digit(mid_s[k]));
            }
            if next > 262143 {
                proof {
                    lemma_digits_value_mono(mid_s, i - 4 + 1);
                    assert(digits_value(mid_s) >= next);
                }
                return Err(FogError::BadFilename);
            }
            id = next;
            i = i + 1;
        }
        proof {
            assert(mid_s.subrange(0, end - 4) =~= mid_s);
            assert(decode_filename(nb) is Some);
        }
        let tx = (id % 512) as i64;
        let ty = (id / 512) as i64;
        proof {
            assert(decode_filename(nb) == Some((tx as int, ty as int)));
        }
        let inflated = inflate_zlib(&data);
        let d = match inflated {
            Some(v) => v,
            None => {
                return Err(FogError::BadPayload);
            },
        };
        if d.len() < 32768 {
            return Err(FogError::BadPayload);
        }
        let dn = d.len();
        let mut j: usize = 0;
        while j < 16384
            invariant
                *self == *old(self),
                self.wf(),
                nb == file_name.spec_bytes(),
                decode_filename(nb) is Some,
                zlib_inflated(data@) == Some(d@),
                j <= 16384,
                dn == d@.len(),
                dn >= 32768,
                forall|k: int|
                    0 <= k < j ==> (#[trigger] slot_of(d@, k)) == 0 || 32768 + (slot_of(d@, k) - 1)
                        * 515 + 515 <= dn,
            decreases 16384 - j,
        {
            let s = read_slot(&d, j);
            if s != 0 {
                let need = 32768 + (s - 1) * 515 + 515;
                if need > dn {
                    proof {
                        assert(slot_of(d@, j as int) != 0 && 32768 + (slot_of(d@, j as int) - 1)
                            * 515 + 515 > d@.len());
                        assert(!payload_wf(d@));
                    }
                    return Err(FogError::BadPayload);
                }
            }
            j = j + 1;
        }
        proof {
            assert(payload_wf(d@));
            assert(snapshot_ok(data@));
        }
        let ti = self.ensure_tile(tx, ty);
        let ghost mid = *self;
        let tl = vstd::std_specs::vec::vec_index_mut(&mut self.tiles, ti);
        tl.import_blocks(&d);
        proof {
            assert(self.tiles@ =~= mid.tiles@.update(ti as int, *tl));
            assert(self.tile_present(tx, ty));
            assert(self.tile_at(tx, ty) == *tl);
            assert(decode_filename(nb).unwrap() == (tx as int, ty as int));
            assert(zlib_inflated(data@).unwrap() == d@);
            assert forall|bx: int, by: int| 0 <= bx < 128 && 0 <= by < 128 implies ((
            #[trigger] self.tile_at(tx, ty).block_present(bx, by) == (slot_of(d@, by * 128 + bx)
                != 0 || (old(self).tile_present(tx, ty) && old(self).tile_at(tx, ty).block_present(
                bx,
                by,
            )))) && (slot_of(d@, by * 128 + bx) != 0 ==> self.tile_at(tx, ty).block_view(bx, by)
                == block_bytes(d@, by * 128 + bx)) && ((slot_of(d@, by * 128 + bx) == 0 && old(
                self,
            ).tile_present(tx, ty) && old(self).tile_at(tx, ty).block_present(bx, by))
                ==> self.tile_at(tx, ty).block_view(bx, by) == old(self).tile_at(
                tx,
                ty,
            ).block_view(bx, by))) by {
                assert(tl.block_present(bx, by) == (slot_of(d@, by * 128 + bx) != 0
                    || mid.tile_at(tx, ty).block_present(bx, by)));
                if slot_of(d@, by * 128 + bx) == 0 {
                    assert(tl.block_view(bx, by) == mid.tile_at(tx, ty).block_view(bx, by));
                }
                if old(self).tile_present(tx, ty) {
                    assert(mid == *old(self));
                } else {
                    assert(!mid.tile_at(tx, ty).block_present(bx, by));
                }
            }
            assert forall|a: i64, b: i64| !(a == tx && b == ty) implies (#[trigger] self.tile_present(
                a,
                b,
            ) == old(self).tile_present(a, b) && (old(self).tile_present(a, b) ==> self.tile_at(
                a,
                b,
            ) == old(self).tile_at(a, b))) by {
                assert(mid.tile_present(a, b) == old(self).tile_present(a, b));
                if mid.tile_present(a, b) {
                    if key_of(a, b) == key_of(tx, ty) {
                        lemma_key_of_injective(a, b, tx, ty);
                    }
                    assert(mid.index@[key_of(a, b)] != mid.index@[key_of(tx, ty)]);
                    assert(self.tile_at(a, b) == mid.tile_at(a, b));
                    assert(mid.tile_at(a, b) == old(self).tile_at(a, b));
                }
            }
        }
        Ok(())
    }
}

/// The digit value of one cipher byte of a file name.
fn decipher(c: u8) -> (d: usize)
    ensures
        d as int == cipher_digit(c),
{
    if c == 111 {
        0
    } else if c == 108 {
        1
    } else if c == 104 {
        2
    } else if c == 119 {
        3
    } else if c == 106 {
        4
    } else if c == 115 {
        5
    } else if c == 107 {
        6
    } else if c == 116 {
        7
    } else if c == 114 {
        8
    } else if c == 105 {
        9
    } else {
        10
    }
}

/// Reads the little-endian slot of block index `i` from an inflated snapshot.
fn read_slot(d: &Vec<u8>, i: usize) -> (s: usize)
    requires
        i < 16384,
        d@.len() >= 32768,
    ensures
        s as int == slot_of(d@, i as int),
        s < 65536,
{
    let lo = d[2 * i];
    let hi = d[2 * i + 1];
    (lo as usize) + 256 * (hi as usize)
}

/// Bresenham continuity over the whole map: every pixel that a single flat
/// Bresenham walk over the borderless pixel grid draws strictly before its
/// end coordinate is also reached by the tiled walk, recorded in the tile
/// its coordinates wrap to. The tiled walk carries the error term across
/// every block and tile boundary, so nothing is lost at any seam.
pub proof fn lemma_map_covers_flat(
    tx: i64,
    ty: i64,
    gx: int,
    gy: int,
    x: int,
    y: int,
    p: int,
    e: int,
    dx0: int,
    dy0: int,
    xaxis: bool,
    q13: bool,
)
    requires
        flat_hit(gx, gy, x, y, p, e, dx0, dy0, xaxis, q13),
        bres_dom(gx, gy, xaxis) < e,
        tx as int == wrap512(gx / 8192),
        ty as int == gy / 8192,
    ensures
        map_seg_hit(tx, ty, gx % 8192, gy % 8192, x, y, p, e, dx0, dy0, xaxis, q13),
    decreases e - bres_dom(x, y, xaxis),
{
    if bres_dom(x, y, xaxis) >= e {
        assert(!(gx == x && gy == y));
        assert(false);
    }
    let cx = x / 8192;
    let cy = y / 8192;
    let ox = cx * 8192;
    let oy = cy * 8192;
    assert(ox <= x < ox + 8192 && oy <= y < oy + 8192);
    lemma_flat_box_decompose(gx, gy, x, y, p, e, ox, oy, dx0, dy0, xaxis, q13);
    let le = if xaxis {
        e - ox
    } else {
        e - oy
    };
    let s8 = seg_end(x - ox, y - oy, p, le, 8192, dx0, dy0, xaxis, q13);
    lemma_tile_flat_end(x - ox, y - oy, p, le, dx0, dy0, xaxis, q13);
    if ox <= gx < ox + 8192 && oy <= gy < oy + 8192 && seg_hit(
        gx - ox,
        gy - oy,
        x - ox,
        y - oy,
        p,
        le,
        8192,
        dx0,
        dy0,
        xaxis,
        q13,
    ) {
        lemma_tile_flat(gx - ox, gy - oy, x - ox, y - oy, p, le, dx0, dy0, xaxis, q13);
        assert(tile_seg_hit(gx - ox, gy - oy, x - ox, y - oy, p, le, dx0, dy0, xaxis, q13));
        assert(gx / 8192 == cx && gy / 8192 == cy);
        assert(gx % 8192 == gx - ox && gy % 8192 == gy - oy);
        assert(map_seg_hit(tx, ty, gx % 8192, gy % 8192, x, y, p, e, dx0, dy0, xaxis, q13));
    } else {
        assert(flat_hit(gx, gy, s8.0 + ox, s8.1 + oy, s8.2, e, dx0, dy0, xaxis, q13));
        lemma_seg_end_dom(x - ox, y - oy, p, le, 8192, dx0, dy0, xaxis, q13);
        lemma_map_covers_flat(tx, ty, gx, gy, s8.0 + ox, s8.1 + oy, s8.2, e, dx0, dy0, xaxis, q13);
        assert(map_seg_hit(tx, ty, gx % 8192, gy % 8192, x, y, p, e, dx0, dy0, xaxis, q13));
    }
}

/// Bresenham continuity for a whole drawn line: every pixel that the flat
/// walk of the antimeridian-adjusted segment visits strictly before its end
/// coordinate satisfies `line_hit` at the wrapped tile key, and so, by the
/// contract of `add_line_pixels`, reads back as visited after the call.
/// Together with `lemma_line_draws_only_flat_walk`, the converse, this pins
/// the drawn pixel set to the single flat rasterization: no gaps at any
/// block or tile seam, and nothing off the line.
pub proof fn lemma_line_covers_flat_walk(
    tx: i64,
    ty: i64,
    gx: int,
    gy: int,
    x0: int,
    y0: int,
    x1: int,
    y1: int,
)
    requires
        ({
            let xs = am_adjust(x0, x1).0;
            let xt = am_adjust(x0, x1).1;
            let dx = xt - xs;
            let dy = y1 - y0;
            let dxa = if dx >= 0 { dx } else { -dx };
            let dya = if dy >= 0 { dy } else { -dy };
            let q13 = (dx < 0 && dy < 0) || (dx > 0 && dy > 0);
            if dya <= dxa {
                let p = 2 * dya - dxa;
                if dx >= 0 {
                    flat_hit(gx, gy, xs, y0, p, xt, dxa, dya, true, q13) && gx < xt
                } else {
                    flat_hit(gx, gy, xt, y1, p, xs, dxa, dya, true, q13) && gx < xs
                }
            } else {
                let p = 2 * dxa - dya;
                if dy >= 0 {
                    flat_hit(gx, gy, xs, y0, p, y1, dxa, dya, false, q13) && gy < y1
                } else {
                    flat_hit(gx, gy, xt, y1, p, y0, dxa, dya, false, q13) && gy < y0
                }
            }
        }),
        tx as int == wrap512(gx / 8192),
        ty as int == gy / 8192,
    ensures
        line_hit(tx, ty, gx % 8192, gy % 8192, x0, y0, x1, y1),
{
    let xs = am_adjust(x0, x1).0;
    let xt = am_adjust(x0, x1).1;
    let dx = xt - xs;
    let dy = y1 - y0;
    let dxa = if dx >= 0 { dx } else { -dx };
    let dya = if dy >= 0 { dy } else { -dy };
    let q13 = (dx < 0 && dy < 0) || (dx > 0 && dy > 0);
    if dya <= dxa {
        let p = 2 * dya - dxa;
        if dx >= 0 {
            lemma_map_covers_flat(tx, ty, gx, gy, xs, y0, p, xt, dxa, dya, true, q13);
        } else {
            lemma_map_covers_flat(tx, ty, gx, gy, xt, y1, p, xs, dxa, dya, true, q13);
        }
    } else {
        let p = 2 * dxa - dya;
        if dy >= 0 {
            lemma_map_covers_flat(tx, ty, gx, gy, xs, y0, p, y1, dxa, dya, false, q13);
        } else {
            lemma_map_covers_flat(tx, ty, gx, gy, xt, y1, p, y0, dxa, dya, false, q13);
        }
    }
}

/// Bresenham continuity over the whole map, converse direction: every pixel
/// the tiled walk records lies on the single flat Bresenham walk, under the
/// tile key its coordinates wrap to. The walk draws nothing off the line.
pub proof fn lemma_map_sub_flat(
    tx: i64,
    ty: i64,
    lx: int,
    ly: int,
    x: int,
    y: int,
    p: int,
    e: int,
    dx0: int,
    dy0: int,
    xaxis: bool,
    q13: bool,
)
    requires
        map_seg_hit(tx, ty, lx, ly, x, y, p, e, dx0, dy0, xaxis, q13),
    ensures
        exists|gx: int, gy: int|
            #![trigger flat_hit(gx, gy, x, y, p, e, dx0, dy0, xaxis, q13)]
            flat_hit(gx, gy, x, y, p, e, dx0, dy0, xaxis, q13) && tx as int == wrap512(gx / 8192)
                && ty as int == gy / 8192 && lx == gx % 8192 && ly == gy % 8192,
    decreases e - bres_dom(x, y, xaxis),
{
    let cx = x / 8192;
    let cy = y / 8192;
    let ox = cx * 8192;
    let oy = cy * 8192;
    let le = if xaxis {
        e - ox
    } else {
        e - oy
    };
    let ts = tile_seg_end(x - ox, y - oy, p, le, dx0, dy0, xaxis, q13);
    if tx as int == wrap512(cx) && ty as int == cy && tile_seg_hit(
        lx,
        ly,
        x - ox,
        y - oy,
        p,
        le,
        dx0,
        dy0,
        xaxis,
        q13,
    ) {
        lemma_tile_sub_flat(lx, ly, x - ox, y - oy, p, le, dx0, dy0, xaxis, q13);
        lemma_seg_in_flat(lx, ly, x - ox, y - oy, p, le, 8192, ox, oy, e, dx0, dy0, xaxis, q13);
        let gx = ox + lx;
        let gy = oy + ly;
        assert(gx / 8192 == cx && gx % 8192 == lx);
        assert(gy / 8192 == cy && gy % 8192 == ly);
        assert(flat_hit(gx, gy, x, y, p, e, dx0, dy0, xaxis, q13));
    } else {
        assert(map_seg_hit(tx, ty, lx, ly, ts.0 + ox, ts.1 + oy, ts.2, e, dx0, dy0, xaxis, q13));
        lemma_tile_seg_end_dom(x - ox, y - oy, p, le, dx0, dy0, xaxis, q13);
        lemma_map_sub_flat(tx, ty, lx, ly, ts.0 + ox, ts.1 + oy, ts.2, e, dx0, dy0, xaxis, q13);
        let (gx, gy) = choose|gx: int, gy: int|
            #![trigger flat_hit(gx, gy, ts.0 + ox, ts.1 + oy, ts.2, e, dx0, dy0, xaxis, q13)]
            flat_hit(gx, gy, ts.0 + ox, ts.1 + oy, ts.2, e, dx0, dy0, xaxis, q13) && tx as int
                == wrap512(gx / 8192) && ty as int == gy / 8192 && lx == gx % 8192 && ly == gy
                % 8192;
        lemma_tile_flat_end(x - ox, y - oy, p, le, dx0, dy0, xaxis, q13);
        lemma_flat_reach(gx, gy, x - ox, y - oy, p, le, 8192, ox, oy, e, dx0, dy0, xaxis, q13);
        assert(flat_hit(gx, gy, x, y, p, e, dx0, dy0, xaxis, q13));
    }
}

/// Whether global pixel (gx, gy) lies on the single flat Bresenham walk of
/// the line from (x0, y0) to (x1, y1), after the antimeridian adjustment:
/// the borderless reference rasterization of the line.
pub open spec fn line_flat_hit(gx: int, gy: int, x0: int, y0: int, x1: int, y1: int) -> bool {
    let xs = am_adjust(x0, x1).0;
    let xt = am_adjust(x0, x1).1;
    let dx = xt - xs;
    let dy = y1 - y0;
    let dxa = if dx >= 0 {
        dx
    } else {
        -dx
    };
    let dya = if dy >= 0 {
        dy
    } else {
        -dy
    };
    let q13 = (dx < 0 && dy < 0) || (dx > 0 && dy > 0);
    if dya <= dxa {
        let p = 2 * dya - dxa;
        if dx >= 0 {
            flat_hit(gx, gy, xs, y0, p, xt, dxa, dya, true, q13)
        } else {
            flat_hit(gx, gy, xt, y1, p, xs, dxa, dya, true, q13)
        }
    } else {
        let p = 2 * dxa - dya;
        if dy >= 0 {
            flat_hit(gx, gy, xs, y0, p, y1, dxa, dya, false, q13)
        } else {
            flat_hit(gx, gy, xt, y1, p, y0, dxa, dya, false, q13)
        }
    }
}

/// Bresenham exactness for a whole drawn line, converse direction: every
/// pixel that `line_hit` marks - and so, by the contract of
/// `add_line_pixels`, every newly visited pixel - lies on the flat walk of
/// the adjusted segment, under the tile key its coordinates wrap to.
pub proof fn lemma_line_draws_only_flat_walk(
    tx: i64,
    ty: i64,
    lx: int,
    ly: int,
    x0: int,
    y0: int,
    x1: int,
    y1: int,
)
    requires
        line_hit(tx, ty, lx, ly, x0, y0, x1, y1),
    ensures
        exists|gx: int, gy: int|
            #![trigger line_flat_hit(gx, gy, x0, y0, x1, y1)]
            line_flat_hit(gx, gy, x0, y0, x1, y1) && tx as int == wrap512(gx / 8192) && ty as int
                == gy / 8192 && lx == gx % 8192 && ly == gy % 8192,
{
    let xs = am_adjust(x0, x1).0;
    let xt = am_adjust(x0, x1).1;
    let dx = xt - xs;
    let dy = y1 - y0;
    let dxa = if dx >= 0 {
        dx
    } else {
        -dx
    };
    let dya = if dy >= 0 {
        dy
    } else {
        -dy
    };
    let q13 = (dx < 0 && dy < 0) || (dx > 0 && dy > 0);
    if dya <= dxa {
        let p = 2 * dya - dxa;
        if dx >= 0 {
            lemma_map_sub_flat(tx, ty, lx, ly, xs, y0, p, xt, dxa, dya, true, q13);
            let (gx, gy) = choose|gx: int, gy: int|
                #![trigger flat_hit(gx, gy, xs, y0, p, xt, dxa, dya, true, q13)]
                flat_hit(gx, gy, xs, y0, p, xt, dxa, dya, true, q13) && tx as int == wrap512(
                    gx / 8192,
                ) && ty as int == gy / 8192 && lx == gx % 8192 && ly == gy % 8192;
            assert(line_flat_hit(gx, gy, x0, y0, x1, y1));
        } else {
            lemma_map_sub_flat(tx, ty, lx, ly, xt, y1, p, xs, dxa, dya, true, q13);
            let (gx, gy) = choose|gx: int, gy: int|
                #![trigger flat_hit(gx, gy, xt, y1, p, xs, dxa, dya, true, q13)]
                flat_hit(gx, gy, xt, y1, p, xs, dxa, dya, true, q13) && tx as int == wrap512(
                    gx / 8192,
                ) && ty as int == gy / 8192 && lx == gx % 8192 && ly == gy % 8192;
            assert(line_flat_hit(gx, gy, x0, y0, x1, y1));
        }
    } else {
        let p = 2 * dxa - dya;
        if dy >= 0 {
            lemma_map_sub_flat(tx, ty, lx, ly, xs, y0, p, y1, dxa, dya, false, q13);
            let (gx, gy) = choose|gx: int, gy: int|
                #![trigger flat_hit(gx, gy, xs, y0, p, y1, dxa, dya, false, q13)]
                flat_hit(gx, gy, xs, y0, p, y1, dxa, dya, false, q13) && tx as int == wrap512(
                    gx / 8192,
                ) && ty as int == gy / 8192 && lx == gx % 8192 && ly == gy % 8192;
            assert(line_flat_hit(gx, gy, x0, y0, x1, y1));
        } else {
            lemma_map_sub_flat(tx, ty, lx, ly, xt, y1, p, y0, dxa, dya, false, q13);
            let (gx, gy) = choose|gx: int, gy: int|
                #![trigger flat_hit(gx, gy, xt, y1, p, y0, dxa, dya, false, q13)]
                flat_hit(gx, gy, xt, y1, p, y0, dxa, dya, false, q13) && tx as int == wrap512(
                    gx / 8192,
                ) && ty as int == gy / 8192 && lx == gx % 8192 && ly == gy % 8192;
            assert(line_flat_hit(gx, gy, x0, y0, x1, y1));
        }
    }
}

/// Monotonic bits: a line only adds visited pixels. Whatever was visited
/// before an `add_line_pixels` call is still visited after it, at every
/// coordinate of every tile.
pub proof fn lemma_add_line_monotonic(
    before: FogMap,
    after: FogMap,
    x0: int,
    y0: int,
    x1: int,
    y1: int,
)
    requires
        forall|tx: i64, ty: i64, lx: int, ly: int|
            0 <= lx < 8192 && 0 <= ly < 8192 ==> #[trigger] after.visited(tx, ty, lx, ly) == (
            before.visited(tx, ty, lx, ly) || line_hit(tx, ty, lx, ly, x0, y0, x1, y1)),
    ensures
        forall|tx: i64, ty: i64, lx: int, ly: int|
            0 <= lx < 8192 && 0 <= ly < 8192 && before.visited(tx, ty, lx, ly)
                ==> #[trigger] after.visited(tx, ty, lx, ly),
{
}

/// The one exception to monotonic bits: an import keeps every visited pixel
/// except in the blocks its snapshot overwrites. A visited pixel of the
/// target tile whose block's slot is zero, and every pixel of every other
/// tile, stays visited.
pub proof fn lemma_import_monotonic(
    before: FogMap,
    after: FogMap,
    name: Seq<u8>,
    data: Seq<u8>,
    tx: i64,
    ty: i64,
)
    requires
        decode_filename(name) is Some,
        tx as int == decode_filename(name).unwrap().0,
        ty as int == decode_filename(name).unwrap().1,
        snapshot_ok(data),
        forall|bx: int, by: int|
            0 <= bx < 128 && 0 <= by < 128 ==> (#[trigger] after.tile_at(tx, ty).block_present(
                bx,
                by,
            ) == (slot_of(zlib_inflated(data).unwrap(), by * 128 + bx) != 0 || (before.tile_present(
                tx,
                ty,
            ) && before.tile_at(tx, ty).block_present(bx, by)))),
        forall|bx: int, by: int|
            0 <= bx < 128 && 0 <= by < 128 && slot_of(zlib_inflated(data).unwrap(), by * 128 + bx)
                == 0 && before.tile_present(tx, ty) && before.tile_at(tx, ty).block_present(bx, by)
                ==> #[trigger] after.tile_at(tx, ty).block_view(bx, by) == before.tile_at(
                tx,
                ty,
            ).block_view(bx, by),
        after.tile_present(tx, ty),
        forall|a: i64, b: i64|
            !(a == tx && b == ty) ==> (#[trigger] after.tile_present(a, b) == before.tile_present(
                a,
                b,
            ) && (before.tile_present(a, b) ==> after.tile_at(a, b) == before.tile_at(a, b))),
    ensures
        forall|a: i64, b: i64, x: int, y: int|
            0 <= x < 8192 && 0 <= y < 8192 && !(a == tx && b == ty) && before.visited(a, b, x, y)
                ==> #[trigger] after.visited(a, b, x, y),
        forall|x: int, y: int|
            0 <= x < 8192 && 0 <= y < 8192 && before.visited(tx, ty, x, y) && slot_of(
                zlib_inflated(data).unwrap(),
                (y / 64) * 128 + (x / 64),
            ) == 0 ==> #[trigger] after.visited(tx, ty, x, y),
{
    let d = zlib_inflated(data).unwrap();
    assert forall|x: int, y: int|
        0 <= x < 8192 && 0 <= y < 8192 && before.visited(tx, ty, x, y) && slot_of(
            d,
            (y / 64) * 128 + (x / 64),
        ) == 0 implies #[trigger] after.visited(tx, ty, x, y) by {
        let bx = x / 64;
        let by = y / 64;
        assert(0 <= bx < 128 && 0 <= by < 128);
        assert(before.tile_at(tx, ty).block_present(bx, by));
        assert(after.tile_at(tx, ty).block_present(bx, by));
        assert(after.tile_at(tx, ty).block_view(bx, by) == before.tile_at(tx, ty).block_view(
            bx,
            by,
        ));
    }
}

/// What a fresh import leaves behind: the outcome of importing one snapshot
/// into an empty map, as `add_fow_file` guarantees it.
pub open spec fn fresh_import(m: FogMap, name: Seq<u8>, data: Seq<u8>) -> bool {
    &&& decode_filename(name) is Some
    &&& snapshot_ok(data)
    &&& ({
        let t = decode_filename(name).unwrap();
        let tx = t.0 as i64;
        let ty = t.1 as i64;
        let d = zlib_inflated(data).unwrap();
        &&& m.tile_present(tx, ty)
        &&& forall|bx: int, by: int|
            0 <= bx < 128 && 0 <= by < 128 ==> (#[trigger] m.tile_at(tx, ty).block_present(bx, by)
                == (slot_of(d, by * 128 + bx) != 0))
        &&& forall|bx: int, by: int|
            0 <= bx < 128 && 0 <= by < 128 && slot_of(d, by * 128 + bx) != 0 ==> #[trigger] m.tile_at(
                tx,
                ty,
            ).block_view(bx, by) == block_bytes(d, by * 128 + bx)
        &&& forall|a: i64, b: i64| !(a == t.0 as i64 && b == t.1 as i64) ==> !#[trigger] m.tile_present(a, b)
    })
}

/// Import determinism: the same bytes imported under the same file name
/// into two empty maps produce maps whose visited pixels agree at every
/// coordinate of every tile.
pub proof fn lemma_import_deterministic(a: FogMap, b: FogMap, name: Seq<u8>, data: Seq<u8>)
    requires
        fresh_import(a, name, data),
        fresh_import(b, name, data),
    ensures
        forall|tx: i64, ty: i64, x: int, y: int|
            0 <= x < 8192 && 0 <= y < 8192 ==> #[trigger] a.visited(tx, ty, x, y) == b.visited(
                tx,
                ty,
                x,
                y,
            ),
{
    let t = decode_filename(name).unwrap();
    let d = zlib_inflated(data).unwrap();
    assert forall|tx: i64, ty: i64, x: int, y: int|
        0 <= x < 8192 && 0 <= y < 8192 implies #[trigger] a.visited(tx, ty, x, y) == b.visited(
        tx,
        ty,
        x,
        y,
    ) by {
        if tx == t.0 as i64 && ty == t.1 as i64 {
            let bx = x / 64;
            let by = y / 64;
            assert(0 <= bx < 128 && 0 <= by < 128);
            assert(a.tile_at(tx, ty).block_present(bx, by) == (slot_of(d, by * 128 + bx) != 0));
            assert(b.tile_at(tx, ty).block_present(bx, by) == (slot_of(d, by * 128 + bx) != 0));
            if slot_of(d, by * 128 + bx) != 0 {
                assert(a.tile_at(tx, ty).block_view(bx, by) == b.tile_at(tx, ty).block_view(
                    bx,
                    by,
                ));
            }
        } else {
            assert(!a.tile_present(tx, ty) && !b.tile_present(tx, ty));
        }
    }
}

/// The endpoints of a line after the antimeridian adjustment: when the x
/// span exceeds half the world, the western endpoint moves east by a full
/// world width so the short arc is drawn.
pub open spec fn am_adjust(x0: int, x1: int) -> (int, int) {
    if x1 - x0 > 2097152 {
        (x0 + 4194304, x1)
    } else if x0 - x1 > 2097152 {
        (x0, x1 + 4194304)
    } else {
        (x0, x1)
    }
}

/// Whether pixel (lx, ly) of the tile under key (tx, ty) is drawn by the
/// line from (x0, y0) to (x1, y1) in projected pixel coordinates: the
/// antimeridian adjustment picks the endpoints, the longer axis becomes the
/// dominant one, the sweep starts at the endpoint with the smaller dominant
/// coordinate, and the Bresenham walk runs from there.
pub open spec fn line_hit(
    tx: i64,
    ty: i64,
    lx: int,
    ly: int,
    x0: int,
    y0: int,
    x1: int,
    y1: int,
) -> bool {
    let xs = am_adjust(x0, x1).0;
    let xt = am_adjust(x0, x1).1;
    let dx = xt - xs;
    let dy = y1 - y0;
    let dxa = if dx >= 0 {
        dx
    } else {
        -dx
    };
    let dya = if dy >= 0 {
        dy
    } else {
        -dy
    };
    let q13 = (dx < 0 && dy < 0) || (dx > 0 && dy > 0);
    if dya <= dxa {
        let p = 2 * dya - dxa;
        if dx >= 0 {
            map_seg_hit(tx, ty, lx, ly, xs, y0, p, xt, dxa, dya, true, q13)
        } else {
            map_seg_hit(tx, ty, lx, ly, xt, y1, p, xs, dxa, dya, true, q13)
        }
    } else {
        let p = 2 * dxa - dya;
        if dy >= 0 {
            map_seg_hit(tx, ty, lx, ly, xs, y0, p, y1, dxa, dya, false, q13)
        } else {
            map_seg_hit(tx, ty, lx, ly, xt, y1, p, y0, dxa, dya, false, q13)
        }
    }
}

} // verus!
