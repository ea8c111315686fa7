//! Rendering of Web-Mercator viewports from the pyramid into RGBA buffers.
//!
//! A request names a viewport tile (x, y, zoom) and a buffer width of
//! 2^buffer_size_power pixels. Depending on how the viewport zoom compares
//! with the native zoom of the pyramid, a view covers many data tiles, a
//! fraction of one tile, or a fraction of a single block. A container drawn
//! below its natural resolution pools to a single pixel: it contributes
//! foreground where any of its pixels is visited.

use vstd::prelude::*;
use crate::fogmap::FogMap;
use crate::tile::Tile;
use crate::tile::tile_any;
use crate::block::Block;
use crate::block::{bit_at, block_any};

verus! {

/// Powers of two for the shift-free fixed-point arithmetic of the renderer.
pub open spec fn pow2s(k: int) -> int
    decreases k,
{
    if k <= 0 {
        1
    } else {
        2 * pow2s(k - 1)
    }
}

/// Computes a power of two.
fn pow2i(k: i64) -> (r: i64)
    requires
        0 <= k <= 40,
    ensures
        r == pow2s(k as int),
        1 <= r <= 0x100_0000_0000,
{
    let mut r: i64 = 1;
    let mut i: i64 = 0;
    while i < k
        invariant
            0 <= i <= k <= 40,
            r == pow2s(i as int),
            1 <= r <= 0x100_0000_0000,
        decreases k - i,
    {
        proof {
            lemma_pow2s_bound(i as int + 1);
        }
        r = r * 2;
        i = i + 1;
    }
    r
}

proof fn lemma_pow2s_bound(k: int)
    requires
        k <= 40,
    ensures
        pow2s(k) <= 0x100_0000_0000,
{
    lemma_pow2s_le(k, 40);
    lemma_pow2s_vals();
}

proof fn lemma_pow2s_le(a: int, b: int)
    requires
        a <= b,
    ensures
        1 <= pow2s(a) <= pow2s(b),
    decreases b - a,
{
    if a < b {
        lemma_pow2s_le(a, b - 1);
    } else {
        lemma_pow2s_le_base(a);
    }
}

proof fn lemma_pow2s_le_base(a: int)
    ensures
        1 <= pow2s(a),
    decreases a,
{
    if a > 0 {
        lemma_pow2s_le_base(a - 1);
    }
}

proof fn lemma_pow2s_vals()
    ensures
        pow2s(6) == 64,
        pow2s(7) == 128,
        pow2s(9) == 512,
        pow2s(12) == 4096,
        pow2s(25) == 0x200_0000,
        pow2s(40) == 0x100_0000_0000,
{
    assert(pow2s(0) == 1);
    assert(pow2s(1) == 2);
    assert(pow2s(2) == 4);
    assert(pow2s(3) == 8);
    assert(pow2s(4) == 16);
    assert(pow2s(5) == 32);
    assert(pow2s(6) == 64);
    assert(pow2s(7) == 128);
    assert(pow2s(8) == 256);
    assert(pow2s(9) == 512);
    assert(pow2s(10) == 1024);
    assert(pow2s(11) == 2048);
    assert(pow2s(12) == 4096);
    assert(pow2s(13) == 0x2000);
    assert(pow2s(14) == 0x4000);
    assert(pow2s(15) == 0x8000);
    assert(pow2s(16) == 0x1_0000);
    assert(pow2s(17) == 0x2_0000);
    assert(pow2s(18) == 0x4_0000);
    assert(pow2s(19) == 0x8_0000);
    assert(pow2s(20) == 0x10_0000);
    assert(pow2s(21) == 0x20_0000);
    assert(pow2s(22) == 0x40_0000);
    assert(pow2s(23) == 0x80_0000);
    assert(pow2s(24) == 0x100_0000);
    assert(pow2s(25) == 0x200_0000);
    assert(pow2s(26) == 0x400_0000);
    assert(pow2s(27) == 0x800_0000);
    assert(pow2s(28) == 0x1000_0000);
    assert(pow2s(29) == 0x2000_0000);
    assert(pow2s(30) == 0x4000_0000);
    assert(pow2s(31) == 0x8000_0000);
    assert(pow2s(32) == 0x1_0000_0000);
    assert(pow2s(33) == 0x2_0000_0000);
    assert(pow2s(34) == 0x4_0000_0000);
    assert(pow2s(35) == 0x8_0000_0000);
    assert(pow2s(36) == 0x10_0000_0000);
    assert(pow2s(37) == 0x20_0000_0000);
    assert(pow2s(38) == 0x40_0000_0000);
    assert(pow2s(39) == 0x80_0000_0000);
    assert(pow2s(40) == 0x100_0000_0000);
}

/// One RGBA color, eight bits per channel.
#[derive(Debug, Clone, Copy, PartialEq, Eq, Structural)]
pub struct Rgba8 {
    pub r: u8,
    pub g: u8,
    pub b: u8,
    pub a: u8,
}

/// Whether pixel `i` of a row-major RGBA buffer holds color `c`.
pub open spec fn pixel_is(buf: Seq<u8>, i: int, c: Rgba8) -> bool {
    buf[4 * i] == c.r && buf[4 * i + 1] == c.g && buf[4 * i + 2] == c.b && buf[4 * i + 3] == c.a
}

/// Whether pixel `i` holds the same bytes in both buffers.
pub open spec fn pixel_same(a: Seq<u8>, b: Seq<u8>, i: int) -> bool {
    a[4 * i] == b[4 * i] && a[4 * i + 1] == b[4 * i + 1] && a[4 * i + 2] == b[4 * i + 2] && a[4 * i
        + 3] == b[4 * i + 3]
}

/// Whether the pixel at column `ox`, row `oy` of a row-major RGBA buffer of
/// the given width holds color `c`.
pub open spec fn pix(buf: Seq<u8>, width: int, ox: int, oy: int, c: Rgba8) -> bool {
    pixel_is(buf, oy * width + ox, c)
}

/// Whether the pixel at column `ox`, row `oy` holds the same bytes in both
/// buffers.
pub open spec fn pix_same(a: Seq<u8>, b: Seq<u8>, width: int, ox: int, oy: int) -> bool {
    pixel_same(a, b, oy * width + ox)
}

/// The pixel offset of step `i` of a container row: scaled up by 2^wp when
/// the container is drawn larger than one pixel per step, down otherwise,
/// with the same clamps the drawing code applies.
pub open spec fn scale_idx(i: int, wp: int) -> int {
    if wp >= 0 {
        i * pow2s(if wp <= 40 {
            wp
        } else {
            40
        })
    } else {
        i / pow2s(if -wp <= 40 {
            -wp
        } else {
            40
        })
    }
}

/// Which output pixels one block paints: below one pixel of output the whole
/// block pools onto its start pixel iff any of its bits is set; otherwise a
/// square of side `bdw` is painted for every set bit of the visible dot
/// range. This is the max-pooling rule of the renderer, stated with the same
/// arithmetic the drawing code uses.
pub open spec fn block_paints(
    bv: Seq<u8>,
    sx: int,
    sy: int,
    sbx: int,
    sby: int,
    zf: int,
    sp: int,
    ox: int,
    oy: int,
) -> bool {
    if sp <= 0 {
        ox == sx && oy == sy && block_any(bv)
    } else {
        let dnp = 6 - zf;
        let dsx = scale_idx(sbx, dnp);
        let dsy = scale_idx(sby, dnp);
        let bdwp = sp - dnp;
        let bdw = if bdwp > 0 {
            pow2s(
                if bdwp <= 12 {
                    bdwp
                } else {
                    12
                },
            )
        } else {
            1
        };
        let iters = if dnp > 0 {
            pow2s(dnp)
        } else {
            1
        };
        block_paints_upto(bv, sx, sy, dsx, dsy, bdwp, bdw, iters, iters, 0, ox, oy)
    }
}

/// The part of `block_paints` contributed by the dots before position
/// (ni, nj) of the dot scan, in scan order.
pub open spec fn block_paints_upto(
    bv: Seq<u8>,
    sx: int,
    sy: int,
    dsx: int,
    dsy: int,
    bdwp: int,
    bdw: int,
    iters: int,
    ni: int,
    nj: int,
    ox: int,
    oy: int,
) -> bool {
    exists|a: int, b: int|
        #![trigger bit_at(bv, a, b)]
        0 <= a < 64 && 0 <= b < 64 && bit_at(bv, a, b) && 0 <= a - dsx < iters && 0 <= b - dsy
            < iters && (a - dsx < ni || (a - dsx == ni && b - dsy < nj)) && sx + scale_idx(
            a - dsx,
            bdwp,
        ) <= ox < sx + scale_idx(a - dsx, bdwp) + bdw && sy + scale_idx(b - dsy, bdwp) <= oy < sy
            + scale_idx(b - dsy, bdwp) + bdw
}

/// Which output pixels one tile paints: below one pixel of output the whole
/// tile pools onto its start pixel iff any of its pixels is visited;
/// otherwise every present block of the visible range paints its own pixels.
pub open spec fn tile_paints(
    t: Tile,
    sx: int,
    sy: int,
    stx: int,
    sty: int,
    zf: int,
    sp: int,
    ox: int,
    oy: int,
) -> bool {
    if sp <= 0 {
        ox == sx && oy == sy && tile_any(t)
    } else {
        let bnp = 7 - zf;
        let bsx = scale_idx(stx, bnp);
        let bsy = scale_idx(sty, bnp);
        let bzf = if bnp < 0 {
            -bnp
        } else {
            0
        };
        let sbx = if bzf > 0 {
            stx % pow2s(bzf)
        } else {
            0
        };
        let sby = if bzf > 0 {
            sty % pow2s(bzf)
        } else {
            0
        };
        let bwp = sp - bnp;
        let iters = if bnp > 0 {
            pow2s(bnp)
        } else {
            1
        };
        tile_paints_upto(t, sx, sy, bsx, bsy, bzf, sbx, sby, bwp, sp, iters, iters, 0, ox, oy)
    }
}

/// The part of `tile_paints` contributed by the blocks before position
/// (ni, nj) of the block scan, in scan order.
pub open spec fn tile_paints_upto(
    t: Tile,
    sx: int,
    sy: int,
    bsx: int,
    bsy: int,
    bzf: int,
    sbx: int,
    sby: int,
    bwp: int,
    sp: int,
    iters: int,
    ni: int,
    nj: int,
    ox: int,
    oy: int,
) -> bool {
    exists|bx: int, by: int|
        #![trigger t.block_present(bx, by)]
        0 <= bx < 128 && 0 <= by < 128 && t.block_present(bx, by) && 0 <= bx - bsx < iters && 0
            <= by - bsy < iters && (bx - bsx < ni || (bx - bsx == ni && by - bsy < nj))
            && block_paints(
            t.block_view(bx, by),
            sx + scale_idx(bx - bsx, bwp),
            sy + scale_idx(by - bsy, bwp),
            sbx,
            sby,
            bzf,
            if bwp < sp {
                bwp
            } else {
                sp
            },
            ox,
            oy,
        )
}

/// Which output pixels a whole render request paints: the viewport is cut
/// into the square of data tiles it covers, and every stored tile of that
/// square paints its own pixels at its own offset. A pixel the request does
/// not paint keeps the background color.
pub open spec fn map_paints(
    m: FogMap,
    vx: int,
    vy: int,
    zoom: int,
    bsp: int,
    ox: int,
    oy: int,
) -> bool {
    let zd = zoom - 9;
    let tlx = if zd > 0 {
        vx / pow2s(zd)
    } else {
        vx * pow2s(-zd)
    };
    let tly = if zd > 0 {
        vy / pow2s(zd)
    } else {
        vy * pow2s(-zd)
    };
    let span = if zd < 0 {
        pow2s(-zd)
    } else {
        1
    };
    let zf = if zd > 0 {
        zd
    } else {
        0
    };
    let stx = if zf > 0 {
        vx % pow2s(zf)
    } else {
        0
    };
    let sty = if zf > 0 {
        vy % pow2s(zf)
    } else {
        0
    };
    let twp = zd + bsp;
    let sp = if twp < bsp {
        twp
    } else {
        bsp
    };
    map_paints_upto(m, tlx, tly, span, stx, sty, zf, twp, sp, span, 0, ox, oy)
}

/// The part of `map_paints` contributed by the tiles before position
/// (ni, nj) of the tile scan, in scan order.
pub open spec fn map_paints_upto(
    m: FogMap,
    tlx: int,
    tly: int,
    span: int,
    stx: int,
    sty: int,
    zf: int,
    twp: int,
    sp: int,
    ni: int,
    nj: int,
    ox: int,
    oy: int,
) -> bool {
    exists|a: i64, b: i64|
        #![trigger m.tile_present(a, b)]
        tlx <= a < tlx + span && tly <= b < tly + span && m.tile_present(a, b) && (a - tlx < ni
            || (a - tlx == ni && b - tly < nj)) && tile_paints(
            m.tile_at(a, b),
            scale_idx(a - tlx, twp),
            scale_idx(b - tly, twp),
            stx,
            sty,
            zf,
            sp,
            ox,
            oy,
        )
}

/// Writes one pixel of the foreground color, if it lies inside the buffer;
/// a pixel outside the buffer is silently clipped. Every other pixel keeps
/// its bytes.
fn draw_pixel(buf: &mut Vec<u8>, x: i64, y: i64, width: i64, fg: Rgba8)
    requires
        1 <= width <= 4096,
        old(buf)@.len() == 4 * width * width,
    ensures
        final(buf)@.len() == old(buf)@.len(),
        forall|ox: int, oy: int|
            #![trigger pix_same(final(buf)@, old(buf)@, width as int, ox, oy)]
            0 <= ox < width && 0 <= oy < width && !(ox == x && oy == y) ==> pix_same(
                final(buf)@,
                old(buf)@,
                width as int,
                ox,
                oy,
            ),
        0 <= x < width && 0 <= y < width ==> pix(final(buf)@, width as int, x as int, y as int, fg),
        !(0 <= x < width && 0 <= y < width) ==> final(buf)@ == old(buf)@,
{
    if 0 <= x && x < width && 0 <= y && y < width {
        proof {
            assert(0 <= y * width + x < width * width && (y * width + x) * 4 + 3 < 4 * width
                * width && width * width <= 0x100_0000 && 0 <= y * width <= 0x100_0000) by (nonlinear_arith)
                requires
                    0 <= x < width,
                    0 <= y < width,
                    width <= 4096,
            ;
        }
        let idx = ((y * width + x) * 4) as usize;
        buf[idx] = fg.r;
        buf[idx + 1] = fg.g;
        buf[idx + 2] = fg.b;
        buf[idx + 3] = fg.a;
        proof {
            let w = width as int;
            let pi = y as int * w + x as int;
            assert(idx as int == 4 * pi);
            assert(4 * width * width == 4 * (width * width)) by (nonlinear_arith);
            assert forall|ox: int, oy: int|
                0 <= ox < width && 0 <= oy < width && !(ox == x && oy == y) implies pix_same(
                final(buf)@,
                old(buf)@,
                w,
                ox,
                oy,
            ) by {
                let k = oy * w + ox;
                assert(k != pi) by (nonlinear_arith)
                    requires
                        0 <= ox < w,
                        0 <= oy < w,
                        0 <= x < w,
                        0 <= y < w,
                        pi == y * w + x,
                        k == oy * w + ox,
                        !(ox == x && oy == y),
                ;
                assert(0 <= k && k < width * width && 4 * k + 3 < 4 * (width * width)) by (nonlinear_arith)
                    requires
                        0 <= ox < w,
                        0 <= oy < w,
                        w <= 4096,
                        k == oy * w + ox,
                        width as int == w,
                ;
                assert(4 * k + 3 < 4 * pi || 4 * pi + 3 < 4 * k);
                assert(buf@[4 * k] == old(buf)@[4 * k]);
                assert(buf@[4 * k + 1] == old(buf)@[4 * k + 1]);
                assert(buf@[4 * k + 2] == old(buf)@[4 * k + 2]);
                assert(buf@[4 * k + 3] == old(buf)@[4 * k + 3]);
            }
            assert(pix(buf@, w, x as int, y as int, fg));
        }
    }
}

/// Fills a rectangle of foreground pixels, clipped to the buffer; pixels
/// outside the rectangle keep their bytes.
fn draw_rect(buf: &mut Vec<u8>, x: i64, y: i64, w: i64, h: i64, width: i64, fg: Rgba8)
    requires
        1 <= width <= 4096,
        old(buf)@.len() == 4 * width * width,
        0 <= w <= 4096,
        0 <= h <= 4096,
        -0x10_0000_0000_0000 <= x <= 0x10_0000_0000_0000,
        -0x10_0000_0000_0000 <= y <= 0x10_0000_0000_0000,
    ensures
        final(buf)@.len() == old(buf)@.len(),
        forall|ox: int, oy: int|
            #![trigger pix(final(buf)@, width as int, ox, oy, fg)]
            0 <= ox < width && 0 <= oy < width && x <= ox < x + w && y <= oy < y + h ==> pix(
                final(buf)@,
                width as int,
                ox,
                oy,
                fg,
            ),
        forall|ox: int, oy: int|
            #![trigger pix_same(final(buf)@, old(buf)@, width as int, ox, oy)]
            0 <= ox < width && 0 <= oy < width && !(x <= ox < x + w && y <= oy < y + h)
                ==> pix_same(final(buf)@, old(buf)@, width as int, ox, oy),
{
    let ghost wd = width as int;
    let mut i: i64 = 0;
    while i < w
        invariant
            0 <= i <= w <= 4096,
            0 <= h <= 4096,
            1 <= width <= 4096,
            wd == width as int,
            -0x10_0000_0000_0000 <= x <= 0x10_0000_0000_0000,
            -0x10_0000_0000_0000 <= y <= 0x10_0000_0000_0000,
            buf@.len() == 4 * width * width,
            buf@.len() == old(buf)@.len(),
            forall|ox: int, oy: int|
                #![trigger pix(buf@, wd, ox, oy, fg)]
                0 <= ox < width && 0 <= oy < width && x <= ox < x + i && y <= oy < y + h ==> pix(
                    buf@,
                    wd,
                    ox,
                    oy,
                    fg,
                ),
            forall|ox: int, oy: int|
                #![trigger pix_same(buf@, old(buf)@, wd, ox, oy)]
                0 <= ox < width && 0 <= oy < width && !(x <= ox < x + i && y <= oy < y + h)
                    ==> pix_same(buf@, old(buf)@, wd, ox, oy),
        decreases w - i,
    {
        let mut j: i64 = 0;
        while j < h
            invariant
                0 <= j <= h <= 4096,
                0 <= i < w <= 4096,
                1 <= width <= 4096,
                wd == width as int,
                -0x10_0000_0000_0000 <= x <= 0x10_0000_0000_0000,
                -0x10_0000_0000_0000 <= y <= 0x10_0000_0000_0000,
                buf@.len() == 4 * width * width,
                buf@.len() == old(buf)@.len(),
                forall|ox: int, oy: int|
                    #![trigger pix(buf@, wd, ox, oy, fg)]
                    0 <= ox < width && 0 <= oy < width && ((x <= ox < x + i && y <= oy < y + h) || (
                    ox == x + i && y <= oy < y + j)) ==> pix(buf@, wd, ox, oy, fg),
                forall|ox: int, oy: int|
                    #![trigger pix_same(buf@, old(buf)@, wd, ox, oy)]
                    0 <= ox < width && 0 <= oy < width && !((x <= ox < x + i && y <= oy < y + h)
                        || (ox == x + i && y <= oy < y + j)) ==> pix_same(
                        buf@,
                        old(buf)@,
                        wd,
                        ox,
                        oy,
                    ),
            decreases h - j,
        {
            let ghost prev = buf@;
            draw_pixel(buf, x + i, y + j, width, fg);
            proof {
                assert forall|ox: int, oy: int|
                    0 <= ox < width && 0 <= oy < width && ((x <= ox < x + i && y <= oy < y + h)
                        || (ox == x + i && y <= oy < y + j + 1)) implies pix(buf@, wd, ox, oy, fg) by {
                    if ox == x + i && oy == y + j {
                        assert(pix(buf@, wd, ox, oy, fg));
                    } else {
                        assert(pix_same(buf@, prev, wd, ox, oy));
                        assert(pix(prev, wd, ox, oy, fg));
                    }
                }
                assert forall|ox: int, oy: int|
                    0 <= ox < width && 0 <= oy < width && !((x <= ox < x + i && y <= oy < y + h)
                        || (ox == x + i && y <= oy < y + j + 1)) implies pix_same(
                    buf@,
                    old(buf)@,
                    wd,
                    ox,
                    oy,
                ) by {
                    assert(pix_same(buf@, prev, wd, ox, oy));
                    assert(pix_same(prev, old(buf)@, wd, ox, oy));
                }
            }
            j = j + 1;
        }
        i = i + 1;
    }
}

/// Draws one block of the pyramid onto the buffer: exactly the pixels of
/// `block_paints` become foreground, every other pixel keeps its bytes.
#[verifier::rlimit(100)]
#[verifier::spinoff_prover]
fn render_block_on_pixels(
    block: &Block,
    buf: &mut Vec<u8>,
    start_x: i64,
    start_y: i64,
    sub_block_x: i64,
    sub_block_y: i64,
    zoom_factor: i16,
    size_power: i16,
    width: i64,
    fg: Rgba8,
)
    requires
        block.wf(),
        1 <= width <= 4096,
        old(buf)@.len() == 4 * width * width,
        0 <= zoom_factor <= 25,
        -64 <= size_power <= 12,
        0 <= sub_block_x <= 0x200_0000,
        0 <= sub_block_y <= 0x200_0000,
        -0x8_0000_0000_0000 <= start_x <= 0x8_0000_0000_0000,
        -0x8_0000_0000_0000 <= start_y <= 0x8_0000_0000_0000,
    ensures
        final(buf)@.len() == old(buf)@.len(),
        forall|ox: int, oy: int|
            #![trigger pix(final(buf)@, width as int, ox, oy, fg)]
            0 <= ox < width && 0 <= oy < width && block_paints(
                block@,
                start_x as int,
                start_y as int,
                sub_block_x as int,
                sub_block_y as int,
                zoom_factor as int,
                size_power as int,
                ox,
                oy,
            ) ==> pix(final(buf)@, width as int, ox, oy, fg),
        forall|ox: int, oy: int|
            #![trigger pix_same(final(buf)@, old(buf)@, width as int, ox, oy)]
            0 <= ox < width && 0 <= oy < width && !block_paints(
                block@,
                start_x as int,
                start_y as int,
                sub_block_x as int,
                sub_block_y as int,
                zoom_factor as int,
                size_power as int,
                ox,
                oy,
            ) ==> pix_same(final(buf)@, old(buf)@, width as int, ox, oy),
{
    let ghost wd = width as int;
    if size_power <= 0 {
        if block.any_visited() {
            draw_pixel(buf, start_x, start_y, width, fg);
        }
    } else {
        let dnp: i16 = 6 - zoom_factor;
        let (dot_start_x, dot_start_y) = if dnp >= 0 {
            let m = pow2i(dnp as i64);
            proof {
                lemma_pow2s_vals();
                lemma_pow2s_le(dnp as int, 6);
                assert(sub_block_x * m <= 0x200_0000 * 64 && sub_block_y * m <= 0x200_0000 * 64
                    && sub_block_x * m >= 0 && sub_block_y * m >= 0) by (nonlinear_arith)
                    requires
                        0 <= sub_block_x <= 0x200_0000,
                        0 <= sub_block_y <= 0x200_0000,
                        1 <= m <= 64,
                ;
            }
            (sub_block_x * m, sub_block_y * m)
        } else {
            let m = pow2i((-dnp) as i64);
            (sub_block_x / m, sub_block_y / m)
        };
        let bdwp: i16 = size_power - dnp;
        let bdw: i64 = if bdwp > 0 {
            pow2i(if bdwp <= 12 {
                bdwp as i64
            } else {
                12
            })
        } else {
            1
        };
        proof {
            lemma_pow2s_vals();
            lemma_pow2s_le(if bdwp as int <= 12 { bdwp as int } else { 12 }, 12);
        }
        let iters: i64 = if dnp > 0 {
            proof {
                lemma_pow2s_vals();
                lemma_pow2s_le(dnp as int, 6);
            }
            pow2i(dnp as i64)
        } else {
            1
        };
        let ghost sxi = start_x as int;
        let ghost syi = start_y as int;
        let ghost dsxi = dot_start_x as int;
        let ghost dsyi = dot_start_y as int;
        let ghost bdwpi = bdwp as int;
        let ghost bdwi = bdw as int;
        let ghost itersi = iters as int;
        proof {
            assert(dsxi == scale_idx(sub_block_x as int, dnp as int));
            assert(dsyi == scale_idx(sub_block_y as int, dnp as int));
        }
        let mut i: i64 = 0;
        while i < iters
            invariant
                0 <= i <= iters <= 64,
                block.wf(),
                1 <= width <= 4096,
                wd == width as int,
                1 <= bdw <= 4096,
                -80 <= bdwp <= 40,
                0 <= dot_start_x <= 0x8000_0000,
                0 <= dot_start_y <= 0x8000_0000,
                -0x8_0000_0000_0000 <= start_x <= 0x8_0000_0000_0000,
                -0x8_0000_0000_0000 <= start_y <= 0x8_0000_0000_0000,
                sxi == start_x as int,
                syi == start_y as int,
                dsxi == dot_start_x as int,
                dsyi == dot_start_y as int,
                bdwpi == bdwp as int,
                bdwi == bdw as int,
                itersi == iters as int,
                buf@.len() == 4 * width * width,
                buf@.len() == old(buf)@.len(),
                forall|ox: int, oy: int|
                    #![trigger pix(buf@, wd, ox, oy, fg)]
                    0 <= ox < width && 0 <= oy < width && block_paints_upto(
                        block@,
                        sxi,
                        syi,
                        dsxi,
                        dsyi,
                        bdwpi,
                        bdwi,
                        itersi,
                        i as int,
                        0,
                        ox,
                        oy,
                    ) ==> pix(buf@, wd, ox, oy, fg),
                forall|ox: int, oy: int|
                    #![trigger pix_same(buf@, old(buf)@, wd, ox, oy)]
                    0 <= ox < width && 0 <= oy < width && !block_paints_upto(
                        block@,
                        sxi,
                        syi,
                        dsxi,
                        dsyi,
                        bdwpi,
                        bdwi,
                        itersi,
                        i as int,
                        0,
                        ox,
                        oy,
                    ) ==> pix_same(buf@, old(buf)@, wd, ox, oy),
            decreases iters - i,
        {
            let mut j: i64 = 0;
            while j < iters
                invariant
                    0 <= j <= iters <= 64,
                    0 <= i < iters,
                    block.wf(),
                    1 <= width <= 4096,
                    wd == width as int,
                    1 <= bdw <= 4096,
                    -80 <= bdwp <= 40,
                    0 <= dot_start_x <= 0x8000_0000,
                    0 <= dot_start_y <= 0x8000_0000,
                    -0x8_0000_0000_0000 <= start_x <= 0x8_0000_0000_0000,
                    -0x8_0000_0000_0000 <= start_y <= 0x8_0000_0000_0000,
                    sxi == start_x as int,
                    syi == start_y as int,
                    dsxi == dot_start_x as int,
                    dsyi == dot_start_y as int,
                    bdwpi == bdwp as int,
                    bdwi == bdw as int,
                    itersi == iters as int,
                    buf@.len() == 4 * width * width,
                    buf@.len() == old(buf)@.len(),
                    forall|ox: int, oy: int|
                        #![trigger pix(buf@, wd, ox, oy, fg)]
                        0 <= ox < width && 0 <= oy < width && block_paints_upto(
                            block@,
                            sxi,
                            syi,
                            dsxi,
                            dsyi,
                            bdwpi,
                            bdwi,
                            itersi,
                            i as int,
                            j as int,
                            ox,
                            oy,
                        ) ==> pix(buf@, wd, ox, oy, fg),
                    forall|ox: int, oy: int|
                        #![trigger pix_same(buf@, old(buf)@, wd, ox, oy)]
                        0 <= ox < width && 0 <= oy < width && !block_paints_upto(
                            block@,
                            sxi,
                            syi,
                            dsxi,
                            dsyi,
                            bdwpi,
                            bdwi,
                            itersi,
                            i as int,
                            j as int,
                            ox,
                            oy,
                        ) ==> pix_same(buf@, old(buf)@, wd, ox, oy),
                decreases iters - j,
            {
                let dot_x = dot_start_x + i;
                let dot_y = dot_start_y + j;
                let mut hit = false;
                if 0 <= dot_x && dot_x < 64 && 0 <= dot_y && dot_y < 64 {
                    if block.is_visited(dot_x, dot_y) {
                        hit = true;
                    }
                }
                if hit {
                    let (ox_off, oy_off) = if bdwp >= 0 {
                        let m = pow2i(if bdwp <= 40 {
                            bdwp as i64
                        } else {
                            40
                        });
                        proof {
                            assert(0 <= i * m <= 64 * 0x100_0000_0000 && 0 <= j * m <= 64
                                * 0x100_0000_0000) by (nonlinear_arith)
                                requires
                                    0 <= i <= 64,
                                    0 <= j <= 64,
                                    1 <= m <= 0x100_0000_0000,
                            ;
                        }
                        (i * m, j * m)
                    } else {
                        let m = pow2i(if bdwp >= -40 {
                            (-bdwp) as i64
                        } else {
                            40
                        });
                        (i / m, j / m)
                    };
                    let ghost prev = buf@;
                    draw_rect(buf, start_x + ox_off, start_y + oy_off, bdw, bdw, width, fg);
                    proof {
                        let ii = i as int;
                        let jj = j as int;
                        assert(ox_off as int == scale_idx(ii, bdwpi));
                        assert(oy_off as int == scale_idx(jj, bdwpi));
                        assert(bit_at(block@, dsxi + ii, dsyi + jj));
                        let rx = sxi + scale_idx(ii, bdwpi);
                        let ry = syi + scale_idx(jj, bdwpi);
                        assert forall|ox: int, oy: int|
                            0 <= ox < width && 0 <= oy < width && block_paints_upto(
                                block@,
                                sxi,
                                syi,
                                dsxi,
                                dsyi,
                                bdwpi,
                                bdwi,
                                itersi,
                                ii,
                                jj + 1,
                                ox,
                                oy,
                            ) implies pix(buf@, wd, ox, oy, fg) by {
                            if rx <= ox < rx + bdwi && ry <= oy < ry + bdwi {
                                assert(pix(buf@, wd, ox, oy, fg));
                            } else {
                                let (a, b) = choose|a: int, b: int|
                                    #![trigger bit_at(block@, a, b)]
                                    0 <= a < 64 && 0 <= b < 64 && bit_at(block@, a, b) && 0 <= a
                                        - dsxi < itersi && 0 <= b - dsyi < itersi && (a - dsxi < ii
                                        || (a - dsxi == ii && b - dsyi < jj + 1)) && sxi
                                        + scale_idx(a - dsxi, bdwpi) <= ox < sxi + scale_idx(
                                        a - dsxi,
                                        bdwpi,
                                    ) + bdwi && syi + scale_idx(b - dsyi, bdwpi) <= oy < syi
                                        + scale_idx(b - dsyi, bdwpi) + bdwi;
                                assert(!(a - dsxi == ii && b - dsyi == jj));
                                assert(block_paints_upto(
                                    block@,
                                    sxi,
                                    syi,
                                    dsxi,
                                    dsyi,
                                    bdwpi,
                                    bdwi,
                                    itersi,
                                    ii,
                                    jj,
                                    ox,
                                    oy,
                                ));
                                assert(pix(prev, wd, ox, oy, fg));
                                assert(pix_same(buf@, prev, wd, ox, oy));
                            }
                        }
                        assert forall|ox: int, oy: int|
                            0 <= ox < width && 0 <= oy < width && !block_paints_upto(
                                block@,
                                sxi,
                                syi,
                                dsxi,
                                dsyi,
                                bdwpi,
                                bdwi,
                                itersi,
                                ii,
                                jj + 1,
                                ox,
                                oy,
                            ) implies pix_same(buf@, old(buf)@, wd, ox, oy) by {
                            if rx <= ox < rx + bdwi && ry <= oy < ry + bdwi {
                                assert(block_paints_upto(
                                    block@,
                                    sxi,
                                    syi,
                                    dsxi,
                                    dsyi,
                                    bdwpi,
                                    bdwi,
                                    itersi,
                                    ii,
                                    jj + 1,
                                    ox,
                                    oy,
                                ));
                            } else {
                                assert(!block_paints_upto(
                                    block@,
                                    sxi,
                                    syi,
                                    dsxi,
                                    dsyi,
                                    bdwpi,
                                    bdwi,
                                    itersi,
                                    ii,
                                    jj,
                                    ox,
                                    oy,
                                ));
                                assert(pix_same(buf@, prev, wd, ox, oy));
                                assert(pix_same(prev, old(buf)@, wd, ox, oy));
                            }
                        }
                    }
                } else {
                    proof {
                        let ii = i as int;
                        let jj = j as int;
                        assert forall|ox: int, oy: int|
                            0 <= ox < width && 0 <= oy < width implies (block_paints_upto(
                            block@,
                            sxi,
                            syi,
                            dsxi,
                            dsyi,
                            bdwpi,
                            bdwi,
                            itersi,
                            ii,
                            jj + 1,
                            ox,
                            oy,
                        ) == block_paints_upto(
                            block@,
                            sxi,
                            syi,
                            dsxi,
                            dsyi,
                            bdwpi,
                            bdwi,
                            itersi,
                            ii,
                            jj,
                            ox,
                            oy,
                        )) by {
                            if block_paints_upto(
                                block@,
                                sxi,
                                syi,
                                dsxi,
                                dsyi,
                                bdwpi,
                                bdwi,
                                itersi,
                                ii,
                                jj + 1,
                                ox,
                                oy,
                            ) {
                                let (a, b) = choose|a: int, b: int|
                                    #![trigger bit_at(block@, a, b)]
                                    0 <= a < 64 && 0 <= b < 64 && bit_at(block@, a, b) && 0 <= a
                                        - dsxi < itersi && 0 <= b - dsyi < itersi && (a - dsxi < ii
                                        || (a - dsxi == ii && b - dsyi < jj + 1)) && sxi
                                        + scale_idx(a - dsxi, bdwpi) <= ox < sxi + scale_idx(
                                        a - dsxi,
                                        bdwpi,
                                    ) + bdwi && syi + scale_idx(b - dsyi, bdwpi) <= oy < syi
                                        + scale_idx(b - dsyi, bdwpi) + bdwi;
                                assert(!(a - dsxi == ii && b - dsyi == jj));
                                assert(block_paints_upto(
                                    block@,
                                    sxi,
                                    syi,
                                    dsxi,
                                    dsyi,
                                    bdwpi,
                                    bdwi,
                                    itersi,
                                    ii,
                                    jj,
                                    ox,
                                    oy,
                                ));
                            }
                        }
                    }
                }
                j = j + 1;
            }
            proof {
                let ii = i as int;
                assert forall|ox: int, oy: int|
                    0 <= ox < width && 0 <= oy < width implies (block_paints_upto(
                    block@,
                    sxi,
                    syi,
                    dsxi,
                    dsyi,
                    bdwpi,
                    bdwi,
                    itersi,
                    ii,
                    itersi,
                    ox,
                    oy,
                ) == block_paints_upto(
                    block@,
                    sxi,
                    syi,
                    dsxi,
                    dsyi,
                    bdwpi,
                    bdwi,
                    itersi,
                    ii + 1,
                    0,
                    ox,
                    oy,
                )) by {
                }
            }
            i = i + 1;
        }
    }
}

/// Draws one tile of the pyramid onto the buffer, block by block: exactly
/// the pixels of `tile_paints` become foreground, every other pixel keeps
/// its bytes.
#[verifier::rlimit(100)]
#[verifier::spinoff_prover]
fn render_tile_on_pixels(
    tile: &Tile,
    buf: &mut Vec<u8>,
    start_x: i64,
    start_y: i64,
    sub_tile_x: i64,
    sub_tile_y: i64,
    zoom_factor: i16,
    size_power: i16,
    width: i64,
    fg: Rgba8,
)
    requires
        tile.wf(),
        1 <= width <= 4096,
        old(buf)@.len() == 4 * width * width,
        0 <= zoom_factor <= 25,
        -40 <= size_power <= 12,
        0 <= sub_tile_x <= 0x200_0000,
        0 <= sub_tile_y <= 0x200_0000,
        -0x4_0000_0000_0000 <= start_x <= 0x4_0000_0000_0000,
        -0x4_0000_0000_0000 <= start_y <= 0x4_0000_0000_0000,
    ensures
        final(buf)@.len() == old(buf)@.len(),
        forall|ox: int, oy: int|
            #![trigger pix(final(buf)@, width as int, ox, oy, fg)]
            0 <= ox < width && 0 <= oy < width && tile_paints(
                *tile,
                start_x as int,
                start_y as int,
                sub_tile_x as int,
                sub_tile_y as int,
                zoom_factor as int,
                size_power as int,
                ox,
                oy,
            ) ==> pix(final(buf)@, width as int, ox, oy, fg),
        forall|ox: int, oy: int|
            #![trigger pix_same(final(buf)@, old(buf)@, width as int, ox, oy)]
            0 <= ox < width && 0 <= oy < width && !tile_paints(
                *tile,
                start_x as int,
                start_y as int,
                sub_tile_x as int,
                sub_tile_y as int,
                zoom_factor as int,
                size_power as int,
                ox,
                oy,
            ) ==> pix_same(final(buf)@, old(buf)@, width as int, ox, oy),
{
    let ghost wd = width as int;
    if size_power <= 0 {
        if tile.any_visited() {
            draw_pixel(buf, start_x, start_y, width, fg);
        }
    } else {
        let bnp: i16 = 7 - zoom_factor;
        let (block_start_x, block_start_y) = if bnp >= 0 {
            let m = pow2i(bnp as i64);
            proof {
                lemma_pow2s_vals();
                lemma_pow2s_le(bnp as int, 7);
                assert(0 <= sub_tile_x * m <= 0x200_0000 * 128 && 0 <= sub_tile_y * m
                    <= 0x200_0000 * 128) by (nonlinear_arith)
                    requires
                        0 <= sub_tile_x <= 0x200_0000,
                        0 <= sub_tile_y <= 0x200_0000,
                        1 <= m <= 128,
                ;
            }
            (sub_tile_x * m, sub_tile_y * m)
        } else {
            let m = pow2i((-bnp) as i64);
            (sub_tile_x / m, sub_tile_y / m)
        };
        let block_zoom_factor: i16 = if bnp < 0 {
            -bnp
        } else {
            0
        };
        let (sub_block_x, sub_block_y) = if block_zoom_factor > 0 {
            let m = pow2i(block_zoom_factor as i64);
            proof {
                lemma_pow2s_vals();
                lemma_pow2s_le(block_zoom_factor as int, 25);
            }
            (sub_tile_x % m, sub_tile_y % m)
        } else {
            (0, 0)
        };
        let bwp: i16 = size_power - bnp;
        let iters: i64 = if bnp > 0 {
            proof {
                lemma_pow2s_vals();
                lemma_pow2s_le(bnp as int, 7);
            }
            pow2i(bnp as i64)
        } else {
            1
        };
        let ghost sxi = start_x as int;
        let ghost syi = start_y as int;
        let ghost bsxi = block_start_x as int;
        let ghost bsyi = block_start_y as int;
        let ghost bzfi = block_zoom_factor as int;
        let ghost sbxi = sub_block_x as int;
        let ghost sbyi = sub_block_y as int;
        let ghost bwpi = bwp as int;
        let ghost spi = size_power as int;
        let ghost itersi = iters as int;
        proof {
            assert(bsxi == scale_idx(sub_tile_x as int, bnp as int));
            assert(bsyi == scale_idx(sub_tile_y as int, bnp as int));
        }
        let mut i: i64 = 0;
        while i < iters
            invariant
                0 <= i <= iters <= 128,
                tile.wf(),
                1 <= width <= 4096,
                wd == width as int,
                -47 <= bwp <= 40,
                0 <= block_zoom_factor <= 25,
                0 <= block_start_x <= 0x1_0000_0000,
                0 <= block_start_y <= 0x1_0000_0000,
                0 <= sub_block_x <= 0x200_0000,
                0 <= sub_block_y <= 0x200_0000,
                -0x4_0000_0000_0000 <= start_x <= 0x4_0000_0000_0000,
                -0x4_0000_0000_0000 <= start_y <= 0x4_0000_0000_0000,
                -40 <= size_power <= 12,
                0 < size_power,
                sxi == start_x as int,
                syi == start_y as int,
                bsxi == block_start_x as int,
                bsyi == block_start_y as int,
                bzfi == block_zoom_factor as int,
                sbxi == sub_block_x as int,
                sbyi == sub_block_y as int,
                bwpi == bwp as int,
                spi == size_power as int,
                itersi == iters as int,
                buf@.len() == 4 * width * width,
                buf@.len() == old(buf)@.len(),
                forall|ox: int, oy: int|
                    #![trigger pix(buf@, wd, ox, oy, fg)]
                    0 <= ox < width && 0 <= oy < width && tile_paints_upto(
                        *tile,
                        sxi,
                        syi,
                        bsxi,
                        bsyi,
                        bzfi,
                        sbxi,
                        sbyi,
                        bwpi,
                        spi,
                        itersi,
                        i as int,
                        0,
                        ox,
                        oy,
                    ) ==> pix(buf@, wd, ox, oy, fg),
                forall|ox: int, oy: int|
                    #![trigger pix_same(buf@, old(buf)@, wd, ox, oy)]
                    0 <= ox < width && 0 <= oy < width && !tile_paints_upto(
                        *tile,
                        sxi,
                        syi,
                        bsxi,
                        bsyi,
                        bzfi,
                        sbxi,
                        sbyi,
                        bwpi,
                        spi,
                        itersi,
                        i as int,
                        0,
                        ox,
                        oy,
                    ) ==> pix_same(buf@, old(buf)@, wd, ox, oy),
            decreases iters - i,
        {
            let mut j: i64 = 0;
            while j < iters
                invariant
                    0 <= j <= iters <= 128,
                    0 <= i < iters,
                    tile.wf(),
                    1 <= width <= 4096,
                    wd == width as int,
                    -47 <= bwp <= 40,
                    0 <= block_zoom_factor <= 25,
                    0 <= block_start_x <= 0x1_0000_0000,
                    0 <= block_start_y <= 0x1_0000_0000,
                    0 <= sub_block_x <= 0x200_0000,
                    0 <= sub_block_y <= 0x200_0000,
                    -0x4_0000_0000_0000 <= start_x <= 0x4_0000_0000_0000,
                    -0x4_0000_0000_0000 <= start_y <= 0x4_0000_0000_0000,
                    -40 <= size_power <= 12,
                    0 < size_power,
                    sxi == start_x as int,
                    syi == start_y as int,
                    bsxi == block_start_x as int,
                    bsyi == block_start_y as int,
                    bzfi == block_zoom_factor as int,
                    sbxi == sub_block_x as int,
                    sbyi == sub_block_y as int,
                    bwpi == bwp as int,
                    spi == size_power as int,
                    itersi == iters as int,
                    buf@.len() == 4 * width * width,
                    buf@.len() == old(buf)@.len(),
                    forall|ox: int, oy: int|
                        #![trigger pix(buf@, wd, ox, oy, fg)]
                        0 <= ox < width && 0 <= oy < width && tile_paints_upto(
                            *tile,
                            sxi,
                            syi,
                            bsxi,
                            bsyi,
                            bzfi,
                            sbxi,
                            sbyi,
                            bwpi,
                            spi,
                            itersi,
                            i as int,
                            j as int,
                            ox,
                            oy,
                        ) ==> pix(buf@, wd, ox, oy, fg),
                    forall|ox: int, oy: int|
                        #![trigger pix_same(buf@, old(buf)@, wd, ox, oy)]
                        0 <= ox < width && 0 <= oy < width && !tile_paints_upto(
                            *tile,
                            sxi,
                            syi,
                            bsxi,
                            bsyi,
                            bzfi,
                            sbxi,
                            sbyi,
                            bwpi,
                            spi,
                            itersi,
                            i as int,
                            j as int,
                            ox,
                            oy,
                        ) ==> pix_same(buf@, old(buf)@, wd, ox, oy),
                decreases iters - j,
            {
                let bx = block_start_x + i;
                let by = block_start_y + j;
                let ghost ii = i as int;
                let ghost jj = j as int;
                let mut advanced = false;
                if 0 <= bx && bx < 128 && 0 <= by && by < 128 {
                    match tile.get_block(bx, by) {
                        Some(block) => {
                            advanced = true;
                            let (ox_off, oy_off) = if bwp >= 0 {
                                let m = pow2i(if bwp <= 40 {
                                    bwp as i64
                                } else {
                                    40
                                });
                                proof {
                                    assert(0 <= i * m <= 128 * 0x100_0000_0000 && 0 <= j * m
                                        <= 128 * 0x100_0000_0000) by (nonlinear_arith)
                                        requires
                                            0 <= i <= 128,
                                            0 <= j <= 128,
                                            1 <= m <= 0x100_0000_0000,
                                    ;
                                }
                                (i * m, j * m)
                            } else {
                                let m = pow2i(if -bwp <= 40 {
                                    (-bwp) as i64
                                } else {
                                    40
                                });
                                (i / m, j / m)
                            };
                            let sp2: i16 = if bwp < size_power {
                                bwp
                            } else {
                                size_power
                            };
                            let ghost prev = buf@;
                            render_block_on_pixels(
                                block,
                                buf,
                                start_x + ox_off,
                                start_y + oy_off,
                                sub_block_x,
                                sub_block_y,
                                block_zoom_factor,
                                sp2,
                                width,
                                fg,
                            );
                            proof {
                                assert(ox_off as int == scale_idx(ii, bwpi));
                                assert(oy_off as int == scale_idx(jj, bwpi));
                                assert(tile.block_present(bsxi + ii, bsyi + jj));
                                assert(block@ == tile.block_view(bsxi + ii, bsyi + jj));
                                let bp = |ox: int, oy: int|
                                    block_paints(
                                        tile.block_view(bsxi + ii, bsyi + jj),
                                        sxi + scale_idx(ii, bwpi),
                                        syi + scale_idx(jj, bwpi),
                                        sbxi,
                                        sbyi,
                                        bzfi,
                                        if bwpi < spi {
                                            bwpi
                                        } else {
                                            spi
                                        },
                                        ox,
                                        oy,
                                    );
                                assert forall|ox: int, oy: int|
                                    0 <= ox < width && 0 <= oy < width && tile_paints_upto(
                                        *tile,
                                        sxi,
                                        syi,
                                        bsxi,
                                        bsyi,
                                        bzfi,
                                        sbxi,
                                        sbyi,
                                        bwpi,
                                        spi,
                                        itersi,
                                        ii,
                                        jj + 1,
                                        ox,
                                        oy,
                                    ) implies pix(buf@, wd, ox, oy, fg) by {
                                    if bp(ox, oy) {
                                        assert(pix(buf@, wd, ox, oy, fg));
                                    } else {
                                        let (a, b) = choose|a: int, b: int|
                                            #![trigger tile.block_present(a, b)]
                                            0 <= a < 128 && 0 <= b < 128 && tile.block_present(
                                                a,
                                                b,
                                            ) && 0 <= a - bsxi < itersi && 0 <= b - bsyi < itersi
                                                && (a - bsxi < ii || (a - bsxi == ii && b - bsyi
                                                < jj + 1)) && block_paints(
                                                tile.block_view(a, b),
                                                sxi + scale_idx(a - bsxi, bwpi),
                                                syi + scale_idx(b - bsyi, bwpi),
                                                sbxi,
                                                sbyi,
                                                bzfi,
                                                if bwpi < spi {
                                                    bwpi
                                                } else {
                                                    spi
                                                },
                                                ox,
                                                oy,
                                            );
                                        assert(!(a - bsxi == ii && b - bsyi == jj));
                                        assert(tile_paints_upto(
                                            *tile,
                                            sxi,
                                            syi,
                                            bsxi,
                                            bsyi,
                                            bzfi,
                                            sbxi,
                                            sbyi,
                                            bwpi,
                                            spi,
                                            itersi,
                                            ii,
                                            jj,
                                            ox,
                                            oy,
                                        ));
                                        assert(pix(prev, wd, ox, oy, fg));
                                        assert(!bp(ox, oy));
                                        assert(pix_same(buf@, prev, wd, ox, oy));
                                    }
                                }
                                assert forall|ox: int, oy: int|
                                    0 <= ox < width && 0 <= oy < width && !tile_paints_upto(
                                        *tile,
                                        sxi,
                                        syi,
                                        bsxi,
                                        bsyi,
                                        bzfi,
                                        sbxi,
                                        sbyi,
                                        bwpi,
                                        spi,
                                        itersi,
                                        ii,
                                        jj + 1,
                                        ox,
                                        oy,
                                    ) implies pix_same(buf@, old(buf)@, wd, ox, oy) by {
                                    if bp(ox, oy) {
                                        assert(tile_paints_upto(
                                            *tile,
                                            sxi,
                                            syi,
                                            bsxi,
                                            bsyi,
                                            bzfi,
                                            sbxi,
                                            sbyi,
                                            bwpi,
                                            spi,
                                            itersi,
                                            ii,
                                            jj + 1,
                                            ox,
                                            oy,
                                        ));
                                    } else {
                                        assert(!tile_paints_upto(
                                            *tile,
                                            sxi,
                                            syi,
                                            bsxi,
                                            bsyi,
                                            bzfi,
                                            sbxi,
                                            sbyi,
                                            bwpi,
                                            spi,
                                            itersi,
                                            ii,
                                            jj,
                                            ox,
                                            oy,
                                        ));
                                        assert(pix_same(buf@, prev, wd, ox, oy));
                                        assert(pix_same(prev, old(buf)@, wd, ox, oy));
                                    }
                                }
                            }
                        },
                        None => {},
                    }
                }
                if !advanced {
                    proof {
                        assert forall|ox: int, oy: int|
                            0 <= ox < width && 0 <= oy < width implies (tile_paints_upto(
                            *tile,
                            sxi,
                            syi,
                            bsxi,
                            bsyi,
                            bzfi,
                            sbxi,
                            sbyi,
                            bwpi,
                            spi,
                            itersi,
                            ii,
                            jj + 1,
                            ox,
                            oy,
                        ) == tile_paints_upto(
                            *tile,
                            sxi,
                            syi,
                            bsxi,
                            bsyi,
                            bzfi,
                            sbxi,
                            sbyi,
                            bwpi,
                            spi,
                            itersi,
                            ii,
                            jj,
                            ox,
                            oy,
                        )) by {
                            if tile_paints_upto(
                                *tile,
                                sxi,
                                syi,
                                bsxi,
                                bsyi,
                                bzfi,
                                sbxi,
                                sbyi,
                                bwpi,
                                spi,
                                itersi,
                                ii,
                                jj + 1,
                                ox,
                                oy,
                            ) {
                                let (a, b) = choose|a: int, b: int|
                                    #![trigger tile.block_present(a, b)]
                                    0 <= a < 128 && 0 <= b < 128 && tile.block_present(a, b) && 0
                                        <= a - bsxi < itersi && 0 <= b - bsyi < itersi && (a - bsxi
                                        < ii || (a - bsxi == ii && b - bsyi < jj + 1))
                                        && block_paints(
                                        tile.block_view(a, b),
                                        sxi + scale_idx(a - bsxi, bwpi),
                                        syi + scale_idx(b - bsyi, bwpi),
                                        sbxi,
                                        sbyi,
                                        bzfi,
                                        if bwpi < spi {
                                            bwpi
                                        } else {
                                            spi
                                        },
                                        ox,
                                        oy,
                                    );
                                assert(!(a - bsxi == ii && b - bsyi == jj));
                                assert(tile_paints_upto(
                                    *tile,
                                    sxi,
                                    syi,
                                    bsxi,
                                    bsyi,
                                    bzfi,
                                    sbxi,
                                    sbyi,
                                    bwpi,
                                    spi,
                                    itersi,
                                    ii,
                                    jj,
                                    ox,
                                    oy,
                                ));
                            }
                        }
                    }
                }
                j = j + 1;
            }
            proof {
                let ii = i as int;
                assert forall|ox: int, oy: int|
                    0 <= ox < width && 0 <= oy < width implies (tile_paints_upto(
                    *tile,
                    sxi,
                    syi,
                    bsxi,
                    bsyi,
                    bzfi,
                    sbxi,
                    sbyi,
                    bwpi,
                    spi,
                    itersi,
                    ii,
                    itersi,
                    ox,
                    oy,
                ) == tile_paints_upto(
                    *tile,
                    sxi,
                    syi,
                    bsxi,
                    bsyi,
                    bzfi,
                    sbxi,
                    sbyi,
                    bwpi,
                    spi,
                    itersi,
                    ii + 1,
                    0,
                    ox,
                    oy,
                )) by {
                }
            }
            i = i + 1;
        }
    }
}

/// The three-regime renderer of the pyramid.
pub struct TileShader;

impl TileShader {
    /// Renders the viewport (view_x, view_y, zoom) of the map into a fresh
    /// RGBA buffer of 2^buffer_size_power by 2^buffer_size_power pixels. An
    /// output pixel is the foreground color exactly when the data region the
    /// viewport maps onto it holds a visited bit, pooled per `map_paints`;
    /// every other pixel is the background color. A map without tiles
    /// renders to pure background.
    #[verifier::rlimit(100)]
    #[verifier::spinoff_prover]
    pub fn render_pixmap(
        fogmap: &FogMap,
        view_x: i64,
        view_y: i64,
        zoom: i16,
        buffer_size_power: i16,
        bg_color: Rgba8,
        fg_color: Rgba8,
    ) -> (r: Vec<u8>)
        requires
            fogmap.wf(),
            0 <= zoom <= 25,
            1 <= buffer_size_power <= 12,
            0 <= view_x < pow2s(zoom as int),
            0 <= view_y < pow2s(zoom as int),
        ensures
            r@.len() == 4 * pow2s(buffer_size_power as int) * pow2s(buffer_size_power as int),
            forall|ox: int, oy: int|
                #![trigger map_paints(*fogmap, view_x as int, view_y as int, zoom as int, buffer_size_power as int, ox, oy)]
                0 <= ox < pow2s(buffer_size_power as int) && 0 <= oy < pow2s(
                    buffer_size_power as int,
                ) ==> {
                    &&& map_paints(
                        *fogmap,
                        view_x as int,
                        view_y as int,
                        zoom as int,
                        buffer_size_power as int,
                        ox,
                        oy,
                    ) ==> pix(r@, pow2s(buffer_size_power as int), ox, oy, fg_color)
                    &&& !map_paints(
                        *fogmap,
                        view_x as int,
                        view_y as int,
                        zoom as int,
                        buffer_size_power as int,
                        ox,
                        oy,
                    ) ==> pix(r@, pow2s(buffer_size_power as int), ox, oy, bg_color)
                },
            (forall|tx: i64, ty: i64| !fogmap.tile_present(tx, ty)) ==> (forall|ox: int, oy: int|
                #![trigger pix(r@, pow2s(buffer_size_power as int), ox, oy, bg_color)]
                0 <= ox < pow2s(buffer_size_power as int) && 0 <= oy < pow2s(
                    buffer_size_power as int,
                ) ==> pix(r@, pow2s(buffer_size_power as int), ox, oy, bg_color)),
    {
        let width = pow2i(buffer_size_power as i64);
        proof {
            lemma_pow2s_vals();
            lemma_pow2s_le(buffer_size_power as int, 12);
            lemma_pow2s_le(zoom as int, 25);
            lemma_pow2s_bound(25);
            assert(1 <= width * width <= 4096 * 4096) by (nonlinear_arith)
                requires
                    1 <= width <= 4096,
            ;
        }
        let npix = (width * width) as usize;
        let mut buf: Vec<u8> = Vec::new();
        let mut k: usize = 0;
        while k < npix
            invariant
                k <= npix,
                buf@.len() == 4 * k,
                forall|i: int| 0 <= i < k ==> #[trigger] pixel_is(buf@, i, bg_color),
            decreases npix - k,
        {
            let ghost prev = buf@;
            buf.push(bg_color.r);
            buf.push(bg_color.g);
            buf.push(bg_color.b);
            buf.push(bg_color.a);
            proof {
                assert(buf@[4 * k as int] == bg_color.r && buf@[4 * k as int + 1] == bg_color.g
                    && buf@[4 * k as int + 2] == bg_color.b && buf@[4 * k as int + 3]
                    == bg_color.a);
                assert forall|i2: int| 0 <= i2 < k + 1 implies #[trigger] pixel_is(
                    buf@,
                    i2,
                    bg_color,
                ) by {
                    if i2 < k {
                        assert(buf@[4 * i2] == prev[4 * i2]);
                        assert(buf@[4 * i2 + 1] == prev[4 * i2 + 1]);
                        assert(buf@[4 * i2 + 2] == prev[4 * i2 + 2]);
                        assert(buf@[4 * i2 + 3] == prev[4 * i2 + 3]);
                        assert(pixel_is(prev, i2, bg_color));
                    }
                }
            }
            k = k + 1;
        }
        proof {
            assert(npix as int == width * width);
            assert(4 * width * width == 4 * (width * width)) by (nonlinear_arith);
            assert(buf@.len() == 4 * width * width);
        }
        let ghost base = buf@;
        let ghost wd = width as int;
        let zoom_diff: i16 = zoom - 9;
        let (tile_x, tile_y) = if zoom_diff > 0 {
            let m = pow2i(zoom_diff as i64);
            (view_x / m, view_y / m)
        } else {
            let m = pow2i((-zoom_diff) as i64);
            proof {
                lemma_pow2s_vals();
                lemma_pow2s_le((-zoom_diff) as int, 9);
                assert(0 <= view_x * m <= 0x200_0000 * 0x200 && 0 <= view_y * m <= 0x200_0000
                    * 0x200) by (nonlinear_arith)
                    requires
                        0 <= view_x <= 0x200_0000,
                        0 <= view_y <= 0x200_0000,
                        1 <= m <= 0x200,
                ;
            }
            (view_x * m, view_y * m)
        };
        let span: i64 = if zoom_diff < 0 {
            proof {
                lemma_pow2s_vals();
                lemma_pow2s_le((-zoom_diff) as int, 9);
            }
            pow2i((-zoom_diff) as i64)
        } else {
            1
        };
        let zoom_factor: i16 = if zoom_diff > 0 {
            zoom_diff
        } else {
            0
        };
        let (sub_tile_x, sub_tile_y) = if zoom_factor > 0 {
            let m = pow2i(zoom_factor as i64);
            proof {
                lemma_pow2s_vals();
                lemma_pow2s_le(zoom_factor as int, 25);
            }
            (view_x % m, view_y % m)
        } else {
            (0, 0)
        };
        let tile_width_power: i16 = zoom_diff + buffer_size_power;
        let size_power: i16 = if tile_width_power < buffer_size_power {
            tile_width_power
        } else {
            buffer_size_power
        };
        let ghost tlxi = tile_x as int;
        let ghost tlyi = tile_y as int;
        let ghost spani = span as int;
        let ghost stxi = sub_tile_x as int;
        let ghost styi = sub_tile_y as int;
        let ghost zfi = zoom_factor as int;
        let ghost twpi = tile_width_power as int;
        let ghost sppi = size_power as int;
        let mut i: i64 = 0;
        while i < span
            invariant
                0 <= i <= span <= 512,
                fogmap.wf(),
                1 <= width <= 4096,
                wd == width as int,
                0 <= zoom_factor <= 25,
                -25 <= tile_width_power <= 37,
                -25 <= size_power <= 12,
                0 <= sub_tile_x <= 0x200_0000,
                0 <= sub_tile_y <= 0x200_0000,
                0 <= tile_x <= 0x4_0000_0000,
                0 <= tile_y <= 0x4_0000_0000,
                tlxi == tile_x as int,
                tlyi == tile_y as int,
                spani == span as int,
                stxi == sub_tile_x as int,
                styi == sub_tile_y as int,
                zfi == zoom_factor as int,
                twpi == tile_width_power as int,
                sppi == size_power as int,
                buf@.len() == 4 * width * width,
                buf@.len() == base.len(),
                forall|k2: int| 0 <= k2 < width * width ==> #[trigger] pixel_is(base, k2, bg_color),
                forall|ox: int, oy: int|
                    #![trigger pix(buf@, wd, ox, oy, fg_color)]
                    0 <= ox < width && 0 <= oy < width && map_paints_upto(
                        *fogmap,
                        tlxi,
                        tlyi,
                        spani,
                        stxi,
                        styi,
                        zfi,
                        twpi,
                        sppi,
                        i as int,
                        0,
                        ox,
                        oy,
                    ) ==> pix(buf@, wd, ox, oy, fg_color),
                forall|ox: int, oy: int|
                    #![trigger pix_same(buf@, base, wd, ox, oy)]
                    0 <= ox < width && 0 <= oy < width && !map_paints_upto(
                        *fogmap,
                        tlxi,
                        tlyi,
                        spani,
                        stxi,
                        styi,
                        zfi,
                        twpi,
                        sppi,
                        i as int,
                        0,
                        ox,
                        oy,
                    ) ==> pix_same(buf@, base, wd, ox, oy),
            decreases span - i,
        {
            let mut j: i64 = 0;
            while j < span
                invariant
                    0 <= j <= span <= 512,
                    0 <= i < span,
                    fogmap.wf(),
                    1 <= width <= 4096,
                    wd == width as int,
                    0 <= zoom_factor <= 25,
                    -25 <= tile_width_power <= 37,
                    -25 <= size_power <= 12,
                    0 <= sub_tile_x <= 0x200_0000,
                    0 <= sub_tile_y <= 0x200_0000,
                    0 <= tile_x <= 0x4_0000_0000,
                    0 <= tile_y <= 0x4_0000_0000,
                    tlxi == tile_x as int,
                    tlyi == tile_y as int,
                    spani == span as int,
                    stxi == sub_tile_x as int,
                    styi == sub_tile_y as int,
                    zfi == zoom_factor as int,
                    twpi == tile_width_power as int,
                    sppi == size_power as int,
                    buf@.len() == 4 * width * width,
                    buf@.len() == base.len(),
                    forall|k2: int|
                        0 <= k2 < width * width ==> #[trigger] pixel_is(base, k2, bg_color),
                    forall|ox: int, oy: int|
                        #![trigger pix(buf@, wd, ox, oy, fg_color)]
                        0 <= ox < width && 0 <= oy < width && map_paints_upto(
                            *fogmap,
                            tlxi,
                            tlyi,
                            spani,
                            stxi,
                            styi,
                            zfi,
                            twpi,
                            sppi,
                            i as int,
                            j as int,
                            ox,
                            oy,
                        ) ==> pix(buf@, wd, ox, oy, fg_color),
                    forall|ox: int, oy: int|
                        #![trigger pix_same(buf@, base, wd, ox, oy)]
                        0 <= ox < width && 0 <= oy < width && !map_paints_upto(
                            *fogmap,
                            tlxi,
                            tlyi,
                            spani,
                            stxi,
                            styi,
                            zfi,
                            twpi,
                            sppi,
                            i as int,
                            j as int,
                            ox,
                            oy,
                        ) ==> pix_same(buf@, base, wd, ox, oy),
                decreases span - j,
            {
                let ghost ii = i as int;
                let ghost jj = j as int;
                match fogmap.get_tile(tile_x + i, tile_y + j) {
                    Some(tile) => {
                        let (x0, y0) = if tile_width_power > 0 {
                            let m = pow2i(tile_width_power as i64);
                            proof {
                                assert(0 <= i * m <= 512 * 0x100_0000_0000 && 0 <= j * m <= 512
                                    * 0x100_0000_0000) by (nonlinear_arith)
                                    requires
                                        0 <= i <= 512,
                                        0 <= j <= 512,
                                        1 <= m <= 0x100_0000_0000,
                                ;
                            }
                            (i * m, j * m)
                        } else {
                            let m = pow2i((-tile_width_power) as i64);
                            (i / m, j / m)
                        };
                        let ghost prev = buf@;
                        render_tile_on_pixels(
                            tile,
                            &mut buf,
                            x0,
                            y0,
                            sub_tile_x,
                            sub_tile_y,
                            zoom_factor,
                            size_power,
                            width,
                            fg_color,
                        );
                        proof {
                            assert(x0 as int == scale_idx(ii, twpi));
                            assert(y0 as int == scale_idx(jj, twpi));
                            let ca = (tile_x + i) as i64;
                            let cb = (tile_y + j) as i64;
                            assert(fogmap.tile_present(ca, cb));
                            assert(fogmap.tile_at(ca, cb) == *tile);
                            let tp = |ox: int, oy: int|
                                tile_paints(
                                    fogmap.tile_at(ca, cb),
                                    scale_idx(ca - tlxi, twpi),
                                    scale_idx(cb - tlyi, twpi),
                                    stxi,
                                    styi,
                                    zfi,
                                    sppi,
                                    ox,
                                    oy,
                                );
                            assert forall|ox: int, oy: int|
                                0 <= ox < width && 0 <= oy < width && map_paints_upto(
                                    *fogmap,
                                    tlxi,
                                    tlyi,
                                    spani,
                                    stxi,
                                    styi,
                                    zfi,
                                    twpi,
                                    sppi,
                                    ii,
                                    jj + 1,
                                    ox,
                                    oy,
                                ) implies pix(buf@, wd, ox, oy, fg_color) by {
                                if tp(ox, oy) {
                                    assert(pix(buf@, wd, ox, oy, fg_color));
                                } else {
                                    let (a, b) = choose|a: i64, b: i64|
                                        #![trigger fogmap.tile_present(a, b)]
                                        tlxi <= a < tlxi + spani && tlyi <= b < tlyi + spani
                                            && fogmap.tile_present(a, b) && (a - tlxi < ii || (a
                                            - tlxi == ii && b - tlyi < jj + 1)) && tile_paints(
                                            fogmap.tile_at(a, b),
                                            scale_idx(a - tlxi, twpi),
                                            scale_idx(b - tlyi, twpi),
                                            stxi,
                                            styi,
                                            zfi,
                                            sppi,
                                            ox,
                                            oy,
                                        );
                                    assert(!(a == ca && b == cb));
                                    assert(map_paints_upto(
                                        *fogmap,
                                        tlxi,
                                        tlyi,
                                        spani,
                                        stxi,
                                        styi,
                                        zfi,
                                        twpi,
                                        sppi,
                                        ii,
                                        jj,
                                        ox,
                                        oy,
                                    ));
                                    assert(pix(prev, wd, ox, oy, fg_color));
                                    assert(!tp(ox, oy));
                                    assert(pix_same(buf@, prev, wd, ox, oy));
                                }
                            }
                            assert forall|ox: int, oy: int|
                                0 <= ox < width && 0 <= oy < width && !map_paints_upto(
                                    *fogmap,
                                    tlxi,
                                    tlyi,
                                    spani,
                                    stxi,
                                    styi,
                                    zfi,
                                    twpi,
                                    sppi,
                                    ii,
                                    jj + 1,
                                    ox,
                                    oy,
                                ) implies pix_same(buf@, base, wd, ox, oy) by {
                                if tp(ox, oy) {
                                    assert(map_paints_upto(
                                        *fogmap,
                                        tlxi,
                                        tlyi,
                                        spani,
                                        stxi,
                                        styi,
                                        zfi,
                                        twpi,
                                        sppi,
                                        ii,
                                        jj + 1,
                                        ox,
                                        oy,
                                    ));
                                } else {
                                    assert(!map_paints_upto(
                                        *fogmap,
                                        tlxi,
                                        tlyi,
                                        spani,
                                        stxi,
                                        styi,
                                        zfi,
                                        twpi,
                                        sppi,
                                        ii,
                                        jj,
                                        ox,
                                        oy,
                                    ));
                                    assert(pix_same(buf@, prev, wd, ox, oy));
                                    assert(pix_same(prev, base, wd, ox, oy));
                                }
                            }
                        }
                    },
                    None => {
                        proof {
                            let ca = (tile_x + i) as i64;
                            let cb = (tile_y + j) as i64;
                            assert forall|ox: int, oy: int|
                                0 <= ox < width && 0 <= oy < width implies (map_paints_upto(
                                *fogmap,
                                tlxi,
                                tlyi,
                                spani,
                                stxi,
                                styi,
                                zfi,
                                twpi,
                                sppi,
                                ii,
                                jj + 1,
                                ox,
                                oy,
                            ) == map_paints_upto(
                                *fogmap,
                                tlxi,
                                tlyi,
                                spani,
                                stxi,
                                styi,
                                zfi,
                                twpi,
                                sppi,
                                ii,
                                jj,
                                ox,
                                oy,
                            )) by {
                                if map_paints_upto(
                                    *fogmap,
                                    tlxi,
                                    tlyi,
                                    spani,
                                    stxi,
                                    styi,
                                    zfi,
                                    twpi,
                                    sppi,
                                    ii,
                                    jj + 1,
                                    ox,
                                    oy,
                                ) {
                                    let (a, b) = choose|a: i64, b: i64|
                                        #![trigger fogmap.tile_present(a, b)]
                                        tlxi <= a < tlxi + spani && tlyi <= b < tlyi + spani
                                            && fogmap.tile_present(a, b) && (a - tlxi < ii || (a
                                            - tlxi == ii && b - tlyi < jj + 1)) && tile_paints(
                                            fogmap.tile_at(a, b),
                                            scale_idx(a - tlxi, twpi),
                                            scale_idx(b - tlyi, twpi),
                                            stxi,
                                            styi,
                                            zfi,
                                            sppi,
                                            ox,
                                            oy,
                                        );
                                    assert(!(a == ca && b == cb));
                                    assert(map_paints_upto(
                                        *fogmap,
                                        tlxi,
                                        tlyi,
                                        spani,
                                        stxi,
                                        styi,
                                        zfi,
                                        twpi,
                                        sppi,
                                        ii,
                                        jj,
                                        ox,
                                        oy,
                                    ));
                                }
                            }
                        }
                    },
                }
                j = j + 1;
            }
            proof {
                let ii = i as int;
                assert forall|ox: int, oy: int|
                    0 <= ox < width && 0 <= oy < width implies (map_paints_upto(
                    *fogmap,
                    tlxi,
                    tlyi,
                    spani,
                    stxi,
                    styi,
                    zfi,
                    twpi,
                    sppi,
                    ii,
                    spani,
                    ox,
                    oy,
                ) == map_paints_upto(
                    *fogmap,
                    tlxi,
                    tlyi,
                    spani,
                    stxi,
                    styi,
                    zfi,
                    twpi,
                    sppi,
                    ii + 1,
                    0,
                    ox,
                    oy,
                )) by {
                }
            }
            i = i + 1;
        }
        proof {
            let vxi = view_x as int;
            let vyi = view_y as int;
            let zi = zoom as int;
            let bi = buffer_size_power as int;
            assert forall|ox: int, oy: int|
                0 <= ox < pow2s(bi) && 0 <= oy < pow2s(bi) implies {
                &&& map_paints(*fogmap, vxi, vyi, zi, bi, ox, oy) ==> pix(
                    buf@,
                    pow2s(bi),
                    ox,
                    oy,
                    fg_color,
                )
                &&& !map_paints(*fogmap, vxi, vyi, zi, bi, ox, oy) ==> pix(
                    buf@,
                    pow2s(bi),
                    ox,
                    oy,
                    bg_color,
                )
            } by {
                assert(pow2s(bi) == wd);
                assert(map_paints(*fogmap, vxi, vyi, zi, bi, ox, oy) == map_paints_upto(
                    *fogmap,
                    tlxi,
                    tlyi,
                    spani,
                    stxi,
                    styi,
                    zfi,
                    twpi,
                    sppi,
                    spani,
                    0,
                    ox,
                    oy,
                ));
                if !map_paints(*fogmap, vxi, vyi, zi, bi, ox, oy) {
                    assert(pix_same(buf@, base, wd, ox, oy));
                    assert(0 <= oy * wd + ox < width * width) by (nonlinear_arith)
                        requires
                            0 <= ox < wd,
                            0 <= oy < wd,
                            wd == width as int,
                    ;
                    assert(pixel_is(base, oy * wd + ox, bg_color));
                }
            }
            if forall|tx: i64, ty: i64| !fogmap.tile_present(tx, ty) {
                assert forall|ox: int, oy: int|
                    0 <= ox < pow2s(bi) && 0 <= oy < pow2s(bi) implies pix(
                    buf@,
                    pow2s(bi),
                    ox,
                    oy,
                    bg_color,
                ) by {
                    if map_paints(*fogmap, vxi, vyi, zi, bi, ox, oy) {
                        assert(map_paints_upto(
                            *fogmap,
                            tlxi,
                            tlyi,
                            spani,
                            stxi,
                            styi,
                            zfi,
                            twpi,
                            sppi,
                            spani,
                            0,
                            ox,
                            oy,
                        ));
                        let (a, b) = choose|a: i64, b: i64|
                            #![trigger fogmap.tile_present(a, b)]
                            tlxi <= a < tlxi + spani && tlyi <= b < tlyi + spani
                                && fogmap.tile_present(a, b) && (a - tlxi < spani || (a - tlxi
                                == spani && b - tlyi < 0)) && tile_paints(
                                fogmap.tile_at(a, b),
                                scale_idx(a - tlxi, twpi),
                                scale_idx(b - tlyi, twpi),
                                stxi,
                                styi,
                                zfi,
                                sppi,
                                ox,
                                oy,
                            );
                        assert(false);
                    }
                }
            }
        }
        buf
    }
}

impl TileShader {
    /// Renders the viewport into a caller-provided buffer. The buffer must
    /// hold at least 4 bytes per pixel of the requested size; a smaller
    /// buffer fails the call and is left untouched. On success the leading
    /// bytes are the same image `render_pixmap` yields and any bytes beyond
    /// keep their previous value.
    pub fn render_into(
        fogmap: &FogMap,
        buf: &mut Vec<u8>,
        view_x: i64,
        view_y: i64,
        zoom: i16,
        buffer_size_power: i16,
        bg_color: Rgba8,
        fg_color: Rgba8,
    ) -> (r: Result<(), crate::FogError>)
        requires
            fogmap.wf(),
            0 <= zoom <= 25,
            1 <= buffer_size_power <= 12,
            0 <= view_x < pow2s(zoom as int),
            0 <= view_y < pow2s(zoom as int),
        ensures
            final(buf)@.len() == old(buf)@.len(),
            r == Err::<(), crate::FogError>(crate::FogError::BufferTooSmall) <==> old(buf)@.len()
                < 4 * pow2s(buffer_size_power as int) * pow2s(buffer_size_power as int),
            r is Err ==> final(buf)@ == old(buf)@,
            r is Ok ==> {
                &&& forall|ox: int, oy: int|
                    #![trigger map_paints(*fogmap, view_x as int, view_y as int, zoom as int, buffer_size_power as int, ox, oy)]
                    0 <= ox < pow2s(buffer_size_power as int) && 0 <= oy < pow2s(
                        buffer_size_power as int,
                    ) ==> {
                        &&& map_paints(
                            *fogmap,
                            view_x as int,
                            view_y as int,
                            zoom as int,
                            buffer_size_power as int,
                            ox,
                            oy,
                        ) ==> pix(final(buf)@, pow2s(buffer_size_power as int), ox, oy, fg_color)
                        &&& !map_paints(
                            *fogmap,
                            view_x as int,
                            view_y as int,
                            zoom as int,
                            buffer_size_power as int,
                            ox,
                            oy,
                        ) ==> pix(final(buf)@, pow2s(buffer_size_power as int), ox, oy, bg_color)
                    }
                &&& forall|k: int|
                    4 * pow2s(buffer_size_power as int) * pow2s(buffer_size_power as int) <= k
                        < old(buf)@.len() ==> final(buf)@[k] == old(buf)@[k]
            },
    {
        let width = pow2i(buffer_size_power as i64);
        proof {
            lemma_pow2s_vals();
            lemma_pow2s_le(buffer_size_power as int, 12);
            assert(1 <= width * width <= 4096 * 4096) by (nonlinear_arith)
                requires
                    1 <= width <= 4096,
            ;
            assert(4 * width * width == 4 * (width * width)) by (nonlinear_arith);
        }
        let need = (4 * width * width) as usize;
        if buf.len() < need {
            return Err(crate::FogError::BufferTooSmall);
        }
        let rendered = Self::render_pixmap(
            fogmap,
            view_x,
            view_y,
            zoom,
            buffer_size_power,
            bg_color,
            fg_color,
        );
        let mut k: usize = 0;
        while k < need
            invariant
                k <= need,
                need == rendered@.len(),
                need <= buf@.len(),
                buf@.len() == old(buf)@.len(),
                forall|j: int| 0 <= j < k ==> #[trigger] buf@[j] == rendered@[j],
                forall|j: int| k <= j < buf@.len() ==> #[trigger] buf@[j] == old(buf)@[j],
            decreases need - k,
        {
            buf[k] = rendered[k];
            k = k + 1;
        }
        proof {
            let wd = pow2s(buffer_size_power as int);
            let vxi = view_x as int;
            let vyi = view_y as int;
            let zi = zoom as int;
            let bi = buffer_size_power as int;
            assert forall|ox: int, oy: int|
                0 <= ox < wd && 0 <= oy < wd implies {
                &&& map_paints(*fogmap, vxi, vyi, zi, bi, ox, oy) ==> pix(
                    buf@,
                    wd,
                    ox,
                    oy,
                    fg_color,
                )
                &&& !map_paints(*fogmap, vxi, vyi, zi, bi, ox, oy) ==> pix(
                    buf@,
                    wd,
                    ox,
                    oy,
                    bg_color,
                )
            } by {
                assert(wd == width as int);
                let pi = oy * wd + ox;
                assert(0 <= pi < wd * wd && 4 * pi + 3 < 4 * (wd * wd)) by (nonlinear_arith)
                    requires
                        0 <= ox < wd,
                        0 <= oy < wd,
                        wd <= 4096,
                        pi == oy * wd + ox,
                ;
                assert(buf@[4 * pi] == rendered@[4 * pi]);
                assert(buf@[4 * pi + 1] == rendered@[4 * pi + 1]);
                assert(buf@[4 * pi + 2] == rendered@[4 * pi + 2]);
                assert(buf@[4 * pi + 3] == rendered@[4 * pi + 3]);
            }
        }
        Ok(())
    }
}

/// The renderer is a pure function of the map and the request: any two
/// buffers that satisfy the renderer's contract for the same map, viewport
/// and colors are byte-identical. Re-drawing the same segments changes no
/// visited bit, so a render after re-inserting them is pixel-identical too.
pub proof fn lemma_render_deterministic(
    m: FogMap,
    view_x: i64,
    view_y: i64,
    zoom: i16,
    buffer_size_power: i16,
    bg_color: Rgba8,
    fg_color: Rgba8,
    r1: Seq<u8>,
    r2: Seq<u8>,
)
    requires
        1 <= buffer_size_power <= 12,
        r1.len() == 4 * pow2s(buffer_size_power as int) * pow2s(buffer_size_power as int),
        r2.len() == 4 * pow2s(buffer_size_power as int) * pow2s(buffer_size_power as int),
        forall|ox: int, oy: int|
            #![trigger map_paints(m, view_x as int, view_y as int, zoom as int, buffer_size_power as int, ox, oy)]
            0 <= ox < pow2s(buffer_size_power as int) && 0 <= oy < pow2s(buffer_size_power as int)
                ==> {
                &&& map_paints(
                    m,
                    view_x as int,
                    view_y as int,
                    zoom as int,
                    buffer_size_power as int,
                    ox,
                    oy,
                ) ==> pix(r1, pow2s(buffer_size_power as int), ox, oy, fg_color)
                &&& !map_paints(
                    m,
                    view_x as int,
                    view_y as int,
                    zoom as int,
                    buffer_size_power as int,
                    ox,
                    oy,
                ) ==> pix(r1, pow2s(buffer_size_power as int), ox, oy, bg_color)
            },
        forall|ox: int, oy: int|
            #![trigger map_paints(m, view_x as int, view_y as int, zoom as int, buffer_size_power as int, ox, oy)]
            0 <= ox < pow2s(buffer_size_power as int) && 0 <= oy < pow2s(buffer_size_power as int)
                ==> {
                &&& map_paints(
                    m,
                    view_x as int,
                    view_y as int,
                    zoom as int,
                    buffer_size_power as int,
                    ox,
                    oy,
                ) ==> pix(r2, pow2s(buffer_size_power as int), ox, oy, fg_color)
                &&& !map_paints(
                    m,
                    view_x as int,
                    view_y as int,
                    zoom as int,
                    buffer_size_power as int,
                    ox,
                    oy,
                ) ==> pix(r2, pow2s(buffer_size_power as int), ox, oy, bg_color)
            },
    ensures
        r1 == r2,
{
    let w = pow2s(buffer_size_power as int);
    lemma_pow2s_le(0, buffer_size_power as int);
    assert forall|k: int| 0 <= k < r1.len() implies r1[k] == r2[k] by {
        let pi = k / 4;
        let ox = pi % w;
        let oy = pi / w;
        assert(0 <= ox < w && 0 <= oy < w && pi == oy * w + ox && 4 * pi <= k < 4 * pi + 4) by (nonlinear_arith)
            requires
                1 <= w,
                0 <= k < 4 * w * w,
                pi == k / 4,
                ox == pi % w,
                oy == pi / w,
        ;
        let vxi = view_x as int;
        let vyi = view_y as int;
        let zi = zoom as int;
        let bi = buffer_size_power as int;
        if map_paints(m, vxi, vyi, zi, bi, ox, oy) {
            assert(pix(r1, w, ox, oy, fg_color) && pix(r2, w, ox, oy, fg_color));
        } else {
            assert(pix(r1, w, ox, oy, bg_color) && pix(r2, w, ox, oy, bg_color));
        }
        assert(r1[4 * pi] == r2[4 * pi] && r1[4 * pi + 1] == r2[4 * pi + 1] && r1[4 * pi + 2]
            == r2[4 * pi + 2] && r1[4 * pi + 3] == r2[4 * pi + 3]);
    }
    assert(r1 =~= r2);
}

/// The output widths the renderer is typically driven at.
#[derive(Debug, Copy, Clone, PartialEq, Eq, Structural)]
pub enum TileSize {
    TileSize256,
    TileSize512,
    TileSize1024,
}

impl TileSize {
    /// The width in pixels.
    pub fn size(&self) -> (r: u32)
        ensures
            r == match *self {
                TileSize::TileSize256 => 256u32,
                TileSize::TileSize512 => 512u32,
                TileSize::TileSize1024 => 1024u32,
            },
    {
        match self {
            TileSize::TileSize256 => 256,
            TileSize::TileSize512 => 512,
            TileSize::TileSize1024 => 1024,
        }
    }

    /// The base-two logarithm of the width.
    pub fn power(&self) -> (r: i16)
        ensures
            r == match *self {
                TileSize::TileSize256 => 8i16,
                TileSize::TileSize512 => 9i16,
                TileSize::TileSize1024 => 10i16,
            },
    {
        match self {
            TileSize::TileSize256 => 8,
            TileSize::TileSize512 => 9,
            TileSize::TileSize1024 => 10,
        }
    }
}

} // verus!
