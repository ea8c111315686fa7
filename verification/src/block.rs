//! The lowest level of the pyramid: a 64 x 64 bit bitmap.

use vstd::prelude::*;
use crate::bres::{bres_dom, bres_step, seg_hit, seg_end};

verus! {

/// Bytes of a block image: a 512-byte bitmap followed by a 3-byte trailer.
pub const BLOCK_SIZE: usize = 515;

/// Whether bit `i` (counted from the least significant end) of byte `b` is set.
pub open spec fn u8_bit(b: u8, i: u8) -> bool {
    b & (1u8 << i) != 0u8
}

/// Whether pixel (x, y) is set in a block image: eight bytes per row, most
/// significant bit first, so a pixel with small x occupies a high bit.
pub open spec fn bit_at(data: Seq<u8>, x: int, y: int) -> bool {
    u8_bit(data[y * 8 + x / 8], (7 - x % 8) as u8)
}

proof fn lemma_u8_bit_zero(j: u8)
    by (bit_vector)
    requires
        j < 8,
    ensures
        !u8_bit(0u8, j),
{
}

proof fn lemma_u8_nonzero_bit(b: u8)
    requires
        b != 0,
    ensures
        exists|i: u8| i < 8 && #[trigger] u8_bit(b, i),
{
    assert(u8_bit(b, 0) || u8_bit(b, 1) || u8_bit(b, 2) || u8_bit(b, 3) || u8_bit(b, 4) || u8_bit(
        b,
        5,
    ) || u8_bit(b, 6) || u8_bit(b, 7)) by (bit_vector)
        requires
            b != 0,
    ;
}

proof fn lemma_u8_zero_bit(b: u8, j: u8)
    by (bit_vector)
    requires
        b == 0,
        j < 8,
    ensures
        !u8_bit(b, j),
{
}

proof fn lemma_u8_write_bit(b: u8, v: u8, i: u8, j: u8)
    by (bit_vector)
    requires
        i < 8,
        j < 8,
        v == 0u8 || v == 1u8,
    ensures
        u8_bit((b & !(1u8 << i)) | (v << i), j) == if i == j {
            v == 1u8
        } else {
            u8_bit(b, j)
        },
{
}

/// Whether any pixel of a block image is visited.
pub open spec fn block_any(bv: Seq<u8>) -> bool {
    exists|a: int, b: int| 0 <= a < 64 && 0 <= b < 64 && #[trigger] bit_at(bv, a, b)
}

/// A 64 x 64 bit grid stored in 515 bytes: 512 bytes of bitmap and a 3-byte
/// trailer that bulk import fills and nothing in the library interprets.
pub struct Block {
    data: Vec<u8>,
}

impl View for Block {
    type V = Seq<u8>;

    closed spec fn view(&self) -> Seq<u8> {
        self.data@
    }
}

impl Block {
    /// A block image always holds exactly 515 bytes.
    pub open spec fn wf(&self) -> bool {
        self@.len() == 515
    }

    /// Creates a block with every pixel clear and a zero trailer.
    pub fn new() -> (r: Block)
        ensures
            r.wf(),
            forall|a: int, b: int|
                0 <= a < 64 && 0 <= b < 64 ==> !bit_at(r@, a, b),
            forall|k: int| 0 <= k < 515 ==> r@[k] == 0u8,
    {
        let data: Vec<u8> = vec![0u8; BLOCK_SIZE];
        let r = Block { data };
        proof {
            assert forall|a: int, b: int|
                0 <= a < 64 && 0 <= b < 64 implies !bit_at(r@, a, b) by {
                lemma_u8_bit_zero((7 - a % 8) as u8);
            }
        }
        r
    }

    /// Wraps 515 raw bytes (bitmap and trailer) as a block.
    pub fn new_with_data(data: Vec<u8>) -> (r: Block)
        requires
            data@.len() == 515,
        ensures
            r.wf(),
            r@ == data@,
    {
        Block { data }
    }

    /// Reads the bit of pixel (x, y).
    pub fn is_visited(&self, x: i64, y: i64) -> (r: bool)
        requires
            self.wf(),
            0 <= x < 64,
            0 <= y < 64,
        ensures
            r == bit_at(self@, x as int, y as int),
    {
        let xu = x as usize;
        let yu = y as usize;
        let byte = self.data[yu * 8 + xu / 8];
        let bit: u8 = (7 - (xu % 8)) as u8;
        byte & (1u8 << bit) != 0u8
    }

    /// Writes the bit of pixel (x, y); every other pixel and the trailer keep
    /// their value.
    fn set_point(&mut self, x: i64, y: i64, val: bool)
        requires
            old(self).wf(),
            0 <= x < 64,
            0 <= y < 64,
        ensures
            final(self).wf(),
            forall|a: int, b: int|
                0 <= a < 64 && 0 <= b < 64 ==> bit_at(final(self)@, a, b) == if a == x && b == y {
                    val
                } else {
                    bit_at(old(self)@, a, b)
                },
            forall|k: int| 512 <= k < 515 ==> final(self)@[k] == old(self)@[k],
    {
        let xu = x as usize;
        let yu = y as usize;
        let idx = yu * 8 + xu / 8;
        let bit: u8 = (7 - (xu % 8)) as u8;
        let val_number: u8 = if val {
            1u8
        } else {
            0u8
        };
        let old_byte = self.data[idx];
        self.data[idx] = (old_byte & !(1u8 << bit)) | (val_number << bit);
        proof {
            assert forall|a: int, b: int|
                0 <= a < 64 && 0 <= b < 64 implies bit_at(final(self)@, a, b) == if a == x && b
                == y {
                val
            } else {
                bit_at(old(self)@, a, b)
            } by {
                let aidx = b * 8 + a / 8;
                let abit = (7 - a % 8) as u8;
                if aidx == idx {
                    lemma_u8_write_bit(old_byte, val_number, bit, abit);
                    assert(b == y && a / 8 == x / 8);
                    assert(a == x <==> abit == bit);
                } else {
                    assert(final(self)@[aidx] == old(self)@[aidx]);
                }
            }
        }
    }

    /// Whether any pixel of this block is visited: the max-pooling test for
    /// a block drawn below one pixel of output.
    pub fn any_visited(&self) -> (r: bool)
        requires
            self.wf(),
        ensures
            r == block_any(self@),
    {
        let mut k: usize = 0;
        while k < 512
            invariant
                self.wf(),
                k <= 512,
                forall|a: int, b: int|
                    0 <= a < 64 && 0 <= b < 64 && b * 8 + a / 8 < k ==> !#[trigger] bit_at(
                        self@,
                        a,
                        b,
                    ),
            decreases 512 - k,
        {
            if self.data[k] != 0 {
                proof {
                    let byte = self@[k as int];
                    lemma_u8_nonzero_bit(byte);
                    let i = choose|i: u8| i < 8 && #[trigger] u8_bit(byte, i);
                    let a = (k as int % 8) * 8 + (7 - i);
                    let b = k as int / 8;
                    assert(b * 8 + a / 8 == k);
                    assert((7 - a % 8) as u8 == i);
                    assert(bit_at(self@, a, b));
                }
                return true;
            }
            proof {
                assert forall|a: int, b: int|
                    0 <= a < 64 && 0 <= b < 64 && b * 8 + a / 8 < k + 1 implies !#[trigger] bit_at(
                    self@,
                    a,
                    b,
                ) by {
                    if b * 8 + a / 8 == k {
                        lemma_u8_zero_bit(self@[k as int], (7 - a % 8) as u8);
                    }
                }
            }
            k = k + 1;
        }
        proof {
            assert forall|a: int, b: int|
                0 <= a < 64 && 0 <= b < 64 implies !#[trigger] bit_at(self@, a, b) by {
                assert(b * 8 + a / 8 < 512);
            }
        }
        false
    }

    /// Rasterizes one Bresenham segment inside this block, starting at local
    /// pixel (x, y) with error term `p`, until the dominant axis reaches `e`
    /// or the walk leaves the block. Returns the walk state at termination so
    /// the caller can continue in the adjacent block. The pixels it sets are
    /// exactly the pixels of the segment walk; no pixel is ever cleared.
    #[verifier::spinoff_prover]
    #[verifier::rlimit(80)]
    pub(crate) fn add_line(
        &mut self,
        x: i64,
        y: i64,
        e: i64,
        p: i64,
        dx0: i64,
        dy0: i64,
        xaxis: bool,
        q13: bool,
    ) -> (r: (i64, i64, i64))
        requires
            old(self).wf(),
            0 <= x < 64,
            0 <= y < 64,
            -0x100_0000 <= e <= 0x100_0000,
            0 <= dx0 <= 0x80_0000,
            0 <= dy0 <= 0x80_0000,
            -0x10_0000_0000_0000 <= p <= 0x10_0000_0000_0000,
        ensures
            final(self).wf(),
            (r.0 as int, r.1 as int, r.2 as int) == seg_end(
                x as int,
                y as int,
                p as int,
                e as int,
                64,
                dx0 as int,
                dy0 as int,
                xaxis,
                q13,
            ),
            forall|a: int, b: int|
                0 <= a < 64 && 0 <= b < 64 ==> bit_at(final(self)@, a, b) == (bit_at(
                    old(self)@,
                    a,
                    b,
                ) || seg_hit(
                    a,
                    b,
                    x as int,
                    y as int,
                    p as int,
                    e as int,
                    64,
                    dx0 as int,
                    dy0 as int,
                    xaxis,
                    q13,
                )),
            forall|k: int| 512 <= k < 515 ==> final(self)@[k] == old(self)@[k],
    {
        let ghost base = self@;
        let ghost x0 = x as int;
        let ghost y0 = y as int;
        let ghost p0 = p as int;
        let mut x = x;
        let mut y = y;
        let mut p = p;
        self.set_point(x, y, true);
        if xaxis {
            while x < e
                invariant_except_break
                    self.wf(),
                    base.len() == 515,
                    0 <= x < 64,
                    0 <= y < 64,
                    -0x100_0000 <= e <= 0x100_0000,
                    0 <= dx0 <= 0x80_0000,
                    0 <= dy0 <= 0x80_0000,
                    0 <= x0 <= x,
                    p0 - (x - x0) * 0x200_0000 <= p <= p0 + (x - x0) * 0x200_0000,
                    -0x10_0000_0000_0000 <= p0 <= 0x10_0000_0000_0000,
                    bit_at(self@, x as int, y as int),
                    seg_end(x as int, y as int, p as int, e as int, 64, dx0 as int, dy0 as int, true, q13)
                        == seg_end(x0, y0, p0, e as int, 64, dx0 as int, dy0 as int, true, q13),
                    forall|a: int, b: int|
                        0 <= a < 64 && 0 <= b < 64 ==> (bit_at(self@, a, b) || seg_hit(
                            a,
                            b,
                            x as int,
                            y as int,
                            p as int,
                            e as int,
                            64,
                            dx0 as int,
                            dy0 as int,
                            true,
                            q13,
                        )) == (bit_at(base, a, b) || seg_hit(
                            a,
                            b,
                            x0,
                            y0,
                            p0,
                            e as int,
                            64,
                            dx0 as int,
                            dy0 as int,
                            true,
                            q13,
                        )),
                    forall|k: int| 512 <= k < 515 ==> self@[k] == base[k],
                ensures
                    self.wf(),
                    (x as int, y as int, p as int) == seg_end(
                        x0,
                        y0,
                        p0,
                        e as int,
                        64,
                        dx0 as int,
                        dy0 as int,
                        true,
                        q13,
                    ),
                    forall|a: int, b: int|
                        0 <= a < 64 && 0 <= b < 64 ==> bit_at(self@, a, b) == (bit_at(base, a, b)
                            || seg_hit(
                            a,
                            b,
                            x0,
                            y0,
                            p0,
                            e as int,
                            64,
                            dx0 as int,
                            dy0 as int,
                            true,
                            q13,
                        )),
                    forall|k: int| 512 <= k < 515 ==> self@[k] == base[k],
                decreases e - x,
            {
                let ghost prev = self@;
                let ghost sx = x as int;
                let ghost sy = y as int;
                let ghost sp = p as int;
                x = x + 1;
                if p < 0 {
                    p = p + 2 * dy0;
                } else {
                    if q13 {
                        y = y + 1;
                    } else {
                        y = y - 1;
                    }
                    p = p + 2 * (dy0 - dx0);
                }
                proof {
                    assert((x as int, y as int, p as int) == bres_step(
                        sx,
                        sy,
                        sp,
                        dx0 as int,
                        dy0 as int,
                        true,
                        q13,
                    ));
                }
                if x >= 64 || y < 0 || y >= 64 {
                    proof {
                        let ei = e as int;
                        let dxi = dx0 as int;
                        let dyi = dy0 as int;
                        assert(seg_end(sx, sy, sp, ei, 64, dxi, dyi, true, q13) == (
                        x as int,
                        y as int,
                        p as int,
                        ));
                        assert forall|a: int, b: int|
                            0 <= a < 64 && 0 <= b < 64 implies bit_at(self@, a, b) == (bit_at(
                            base,
                            a,
                            b,
                        ) || seg_hit(a, b, x0, y0, p0, ei, 64, dxi, dyi, true, q13)) by {
                            assert((bit_at(prev, a, b) || seg_hit(a, b, sx, sy, sp, ei, 64, dxi, dyi, true, q13))
                                == (bit_at(base, a, b) || seg_hit(a, b, x0, y0, p0, ei, 64, dxi, dyi, true, q13)));
                            assert(seg_hit(a, b, sx, sy, sp, ei, 64, dxi, dyi, true, q13) == (a
                                == sx && b == sy));
                            if a == sx && b == sy {
                                assert(bit_at(prev, a, b));
                            }
                        }
                    }
                    break;
                }
                self.set_point(x, y, true);
                proof {
                    let ei = e as int;
                    let dxi = dx0 as int;
                    let dyi = dy0 as int;
                    assert(seg_end(sx, sy, sp, ei, 64, dxi, dyi, true, q13) == seg_end(
                        x as int,
                        y as int,
                        p as int,
                        ei,
                        64,
                        dxi,
                        dyi,
                        true,
                        q13,
                    ));
                    assert forall|a: int, b: int|
                        0 <= a < 64 && 0 <= b < 64 implies (bit_at(self@, a, b) || seg_hit(
                        a,
                        b,
                        x as int,
                        y as int,
                        p as int,
                        ei,
                        64,
                        dxi,
                        dyi,
                        true,
                        q13,
                    )) == (bit_at(base, a, b) || seg_hit(
                        a,
                        b,
                        x0,
                        y0,
                        p0,
                        ei,
                        64,
                        dxi,
                        dyi,
                        true,
                        q13,
                    )) by {
                        assert((bit_at(prev, a, b) || seg_hit(a, b, sx, sy, sp, ei, 64, dxi, dyi, true, q13))
                            == (bit_at(base, a, b) || seg_hit(a, b, x0, y0, p0, ei, 64, dxi, dyi, true, q13)));
                        assert(bit_at(self@, a, b) == (bit_at(prev, a, b) || (a == x as int && b == y as int)));
                        assert(seg_hit(a, b, sx, sy, sp, ei, 64, dxi, dyi, true, q13) == ((a == sx
                            && b == sy) || seg_hit(
                            a,
                            b,
                            x as int,
                            y as int,
                            p as int,
                            ei,
                            64,
                            dxi,
                            dyi,
                            true,
                            q13,
                        )));
                        if a == x as int && b == y as int {
                            assert(seg_hit(a, b, x as int, y as int, p as int, ei, 64, dxi, dyi, true, q13));
                        }
                        if a == sx && b == sy {
                            assert(bit_at(prev, a, b));
                        }
                    }
                }
            }
        } else {
            while y < e
                invariant_except_break
                    self.wf(),
                    base.len() == 515,
                    0 <= x < 64,
                    0 <= y < 64,
                    -0x100_0000 <= e <= 0x100_0000,
                    0 <= dx0 <= 0x80_0000,
                    0 <= dy0 <= 0x80_0000,
                    0 <= y0 <= y,
                    p0 - (y - y0) * 0x200_0000 <= p <= p0 + (y - y0) * 0x200_0000,
                    -0x10_0000_0000_0000 <= p0 <= 0x10_0000_0000_0000,
                    bit_at(self@, x as int, y as int),
                    seg_end(x as int, y as int, p as int, e as int, 64, dx0 as int, dy0 as int, false, q13)
                        == seg_end(x0, y0, p0, e as int, 64, dx0 as int, dy0 as int, false, q13),
                    forall|a: int, b: int|
                        0 <= a < 64 && 0 <= b < 64 ==> (bit_at(self@, a, b) || seg_hit(
                            a,
                            b,
                            x as int,
                            y as int,
                            p as int,
                            e as int,
                            64,
                            dx0 as int,
                            dy0 as int,
                            false,
                            q13,
                        )) == (bit_at(base, a, b) || seg_hit(
                            a,
                            b,
                            x0,
                            y0,
                            p0,
                            e as int,
                            64,
                            dx0 as int,
                            dy0 as int,
                            false,
                            q13,
                        )),
                    forall|k: int| 512 <= k < 515 ==> self@[k] == base[k],
                ensures
                    self.wf(),
                    (x as int, y as int, p as int) == seg_end(
                        x0,
                        y0,
                        p0,
                        e as int,
                        64,
                        dx0 as int,
                        dy0 as int,
                        false,
                        q13,
                    ),
                    forall|a: int, b: int|
                        0 <= a < 64 && 0 <= b < 64 ==> bit_at(self@, a, b) == (bit_at(base, a, b)
                            || seg_hit(
                            a,
                            b,
                            x0,
                            y0,
                            p0,
                            e as int,
                            64,
                            dx0 as int,
                            dy0 as int,
                            false,
                            q13,
                        )),
                    forall|k: int| 512 <= k < 515 ==> self@[k] == base[k],
                decreases e - y,
            {
                let ghost prev = self@;
                let ghost sx = x as int;
                let ghost sy = y as int;
                let ghost sp = p as int;
                y = y + 1;
                if p <= 0 {
                    p = p + 2 * dx0;
                } else {
                    if q13 {
                        x = x + 1;
                    } else {
                        x = x - 1;
                    }
                    p = p + 2 * (dx0 - dy0);
                }
                proof {
                    assert((x as int, y as int, p as int) == bres_step(
                        sx,
                        sy,
                        sp,
                        dx0 as int,
                        dy0 as int,
                        false,
                        q13,
                    ));
                }
                if y >= 64 || x < 0 || x >= 64 {
                    proof {
                        let ei = e as int;
                        let dxi = dx0 as int;
                        let dyi = dy0 as int;
                        assert(seg_end(sx, sy, sp, ei, 64, dxi, dyi, false, q13) == (
                        x as int,
                        y as int,
                        p as int,
                        ));
                        assert forall|a: int, b: int|
                            0 <= a < 64 && 0 <= b < 64 implies bit_at(self@, a, b) == (bit_at(
                            base,
                            a,
                            b,
                        ) || seg_hit(a, b, x0, y0, p0, ei, 64, dxi, dyi, false, q13)) by {
                            assert((bit_at(prev, a, b) || seg_hit(a, b, sx, sy, sp, ei, 64, dxi, dyi, false, q13))
                                == (bit_at(base, a, b) || seg_hit(a, b, x0, y0, p0, ei, 64, dxi, dyi, false, q13)));
                            assert(seg_hit(a, b, sx, sy, sp, ei, 64, dxi, dyi, false, q13) == (a
                                == sx && b == sy));
                            if a == sx && b == sy {
                                assert(bit_at(prev, a, b));
                            }
                        }
                    }
                    break;
                }
                self.set_point(x, y, true);
                proof {
                    let ei = e as int;
                    let dxi = dx0 as int;
                    let dyi = dy0 as int;
                    assert(seg_end(sx, sy, sp, ei, 64, dxi, dyi, false, q13) == seg_end(
                        x as int,
                        y as int,
                        p as int,
                        ei,
                        64,
                        dxi,
                        dyi,
                        false,
                        q13,
                    ));
                    assert forall|a: int, b: int|
                        0 <= a < 64 && 0 <= b < 64 implies (bit_at(self@, a, b) || seg_hit(
                        a,
                        b,
                        x as int,
                        y as int,
                        p as int,
                        ei,
                        64,
                        dxi,
                        dyi,
                        false,
                        q13,
                    )) == (bit_at(base, a, b) || seg_hit(
                        a,
                        b,
                        x0,
                        y0,
                        p0,
                        ei,
                        64,
                        dxi,
                        dyi,
                        false,
                        q13,
                    )) by {
                        assert((bit_at(prev, a, b) || seg_hit(a, b, sx, sy, sp, ei, 64, dxi, dyi, false, q13))
                            == (bit_at(base, a, b) || seg_hit(a, b, x0, y0, p0, ei, 64, dxi, dyi, false, q13)));
                        assert(bit_at(self@, a, b) == (bit_at(prev, a, b) || (a == x as int && b == y as int)));
                        assert(seg_hit(a, b, sx, sy, sp, ei, 64, dxi, dyi, false, q13) == ((a == sx
                            && b == sy) || seg_hit(
                            a,
                            b,
                            x as int,
                            y as int,
                            p as int,
                            ei,
                            64,
                            dxi,
                            dyi,
                            false,
                            q13,
                        )));
                        if a == x as int && b == y as int {
                            assert(seg_hit(a, b, x as int, y as int, p as int, ei, 64, dxi, dyi, false, q13));
                        }
                        if a == sx && b == sy {
                            assert(bit_at(prev, a, b));
                        }
                    }
                }
            }
        }
        (x, y, p)
    }
}

} // verus!
