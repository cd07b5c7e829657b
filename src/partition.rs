//! Partitioning of a pixel buffer into fixed-size blocks in row-major order,
//! the mapping between leaf indices and block origins, and the restoration
//! of flagged blocks.
use vstd::prelude::*;

use crate::raster::{blank, copies, copy_rect, PixelBuffer};
use crate::IntegrityError;
use vstd::arithmetic::div_mod::{lemma_fundamental_div_mod, lemma_fundamental_div_mod_converse};

verus! {

/// The number of blocks of size `bs` needed to cover `len` pixels.
pub open spec fn blocks_across(len: int, bs: int) -> int {
    (len + bs - 1) / bs
}

/// The pixel origin of block `i` in a grid `per_row` blocks wide.
pub open spec fn block_origin(i: int, per_row: int, bs: int) -> (int, int) {
    ((i % per_row) * bs, (i / per_row) * bs)
}

/// The index of the block that holds pixel `(x, y)`.
pub open spec fn block_index(x: int, y: int, per_row: int, bs: int) -> int {
    (y / bs) * per_row + x / bs
}

/// The index of the block whose origin is `(x, y)`, if it is one.
pub open spec fn origin_index(x: int, y: int, width: int, height: int, bs: int) -> Option<int> {
    if 0 <= x < width && 0 <= y < height && x % bs == 0 && y % bs == 0 {
        Some(block_index(x, y, blocks_across(width, bs), bs))
    } else {
        None
    }
}

proof fn lemma_across(len: int, bs: int)
    requires
        0 < bs,
        0 <= len,
    ensures
        0 <= blocks_across(len, bs),
        blocks_across(len, bs) == 0 <==> len == 0,
        forall|c: int| 0 <= c < blocks_across(len, bs) ==> #[trigger] (c * bs) < len,
        forall|x: int| 0 <= x < len ==> #[trigger] (x / bs) < blocks_across(len, bs),
{
    let n = blocks_across(len, bs);
    lemma_fundamental_div_mod(len + bs - 1, bs);
    let r = (len + bs - 1) % bs;
    assert(0 <= r < bs) by {
        vstd::arithmetic::div_mod::lemma_mod_pos_bound(len + bs - 1, bs);
    }
    assert(bs * n == len + bs - 1 - r);
    assert(0 <= n) by (nonlinear_arith)
        requires
            bs * n == len + bs - 1 - r,
            0 <= len,
            r < bs,
            0 < bs,
    ;
    if len == 0 {
        assert(n < 1) by (nonlinear_arith)
            requires
                bs * n < bs,
                0 < bs,
        ;
    }
    if n == 0 {
        assert(len == 0) by (nonlinear_arith)
            requires
                bs * n == len + bs - 1 - r,
                n == 0,
                0 <= len,
                r < bs,
        ;
    }
    assert forall|c: int| 0 <= c < n implies #[trigger] (c * bs) < len by {
        assert(c * bs < len) by (nonlinear_arith)
            requires
                0 <= c < n,
                bs * n == len + bs - 1 - r,
                0 <= r,
                0 < bs,
        ;
    }
    assert forall|x: int| 0 <= x < len implies #[trigger] (x / bs) < n by {
        lemma_fundamental_div_mod(x, bs);
        vstd::arithmetic::div_mod::lemma_mod_pos_bound(x, bs);
        let q = x / bs;
        assert(q < n) by (nonlinear_arith)
            requires
                x == bs * q + x % bs,
                0 <= x % bs,
                x < len,
                bs * n == len + bs - 1 - r,
                0 <= r < bs,
                0 < bs,
        ;
    }
}

/// Block `i` of a grid covering a `width × height` buffer has its origin inside the buffer.
proof fn lemma_origin_inside(i: int, width: int, height: int, bs: int)
    requires
        0 < bs,
        0 <= width,
        0 <= height,
        0 <= i < blocks_across(width, bs) * blocks_across(height, bs),
    ensures
        blocks_across(width, bs) > 0,
        0 <= i % blocks_across(width, bs) < blocks_across(width, bs),
        0 <= i / blocks_across(width, bs) < blocks_across(height, bs),
        0 <= block_origin(i, blocks_across(width, bs), bs).0 < width,
        0 <= block_origin(i, blocks_across(width, bs), bs).1 < height,
        i == (i / blocks_across(width, bs)) * blocks_across(width, bs) + i % blocks_across(width, bs),
{
    let pr = blocks_across(width, bs);
    let pc = blocks_across(height, bs);
    lemma_across(width, bs);
    lemma_across(height, bs);
    assert(pr > 0) by (nonlinear_arith)
        requires
            0 <= i < pr * pc,
            0 <= pr,
            0 <= pc,
    ;
    lemma_fundamental_div_mod(i, pr);
    vstd::arithmetic::div_mod::lemma_mod_pos_bound(i, pr);
    let q = i / pr;
    assert(0 <= q < pc) by (nonlinear_arith)
        requires
            i == pr * q + i % pr,
            0 <= i % pr < pr,
            0 <= i < pr * pc,
    ;
    assert(0 <= (i % pr) * bs) by (nonlinear_arith)
        requires
            0 <= i % pr,
            0 < bs,
    ;
    assert(0 <= q * bs) by (nonlinear_arith)
        requires
            0 <= q,
            0 < bs,
    ;
    assert(((i % pr) * bs) < width);
    assert((q * bs) < height);
}

/// The block holding a pixel inside the buffer is one of its blocks.
proof fn lemma_block_index_range(x: int, y: int, width: int, height: int, bs: int)
    requires
        0 < bs,
        0 <= x < width,
        0 <= y < height,
    ensures
        0 <= block_index(x, y, blocks_across(width, bs), bs) < blocks_across(width, bs) * blocks_across(height, bs),
{
    let pr = blocks_across(width, bs);
    let pc = blocks_across(height, bs);
    lemma_across(width, bs);
    lemma_across(height, bs);
    lemma_fundamental_div_mod(x, bs);
    lemma_fundamental_div_mod(y, bs);
    vstd::arithmetic::div_mod::lemma_mod_pos_bound(x, bs);
    vstd::arithmetic::div_mod::lemma_mod_pos_bound(y, bs);
    let qx = x / bs;
    let qy = y / bs;
    assert(qx < pr);
    assert(qy < pc);
    assert(0 <= qx && 0 <= qy) by (nonlinear_arith)
        requires
            x == bs * qx + x % bs,
            y == bs * qy + y % bs,
            0 <= x,
            0 <= y,
            x % bs < bs,
            y % bs < bs,
            0 < bs,
    ;
    assert(0 <= qy * pr + qx < pr * pc) by (nonlinear_arith)
        requires
            0 <= qx < pr,
            0 <= qy < pc,
    ;
}

/// A pixel inside the buffer lies in exactly the block whose index `block_index` gives.
proof fn lemma_pixel_block(x: int, y: int, k: int, width: int, height: int, bs: int)
    requires
        0 < bs,
        0 <= x < width,
        0 <= y < height,
        0 <= k < blocks_across(width, bs) * blocks_across(height, bs),
    ensures
        block_index(x, y, blocks_across(width, bs), bs) == k <==> ({
            let o = block_origin(k, blocks_across(width, bs), bs);
            o.0 <= x < o.0 + bs && o.1 <= y < o.1 + bs
        }),
        0 <= block_index(x, y, blocks_across(width, bs), bs) < blocks_across(width, bs) * blocks_across(height, bs),
{
    let pr = blocks_across(width, bs);
    let pc = blocks_across(height, bs);
    lemma_across(width, bs);
    lemma_across(height, bs);
    lemma_origin_inside(k, width, height, bs);
    lemma_fundamental_div_mod(x, bs);
    lemma_fundamental_div_mod(y, bs);
    vstd::arithmetic::div_mod::lemma_mod_pos_bound(x, bs);
    vstd::arithmetic::div_mod::lemma_mod_pos_bound(y, bs);
    let qx = x / bs;
    let qy = y / bs;
    assert(qx < pr);
    assert(qy < pc);
    assert(0 <= qx && 0 <= qy) by (nonlinear_arith)
        requires
            x == bs * qx + x % bs,
            y == bs * qy + y % bs,
            0 <= x,
            0 <= y,
            x % bs < bs,
            y % bs < bs,
            0 < bs,
    ;
    assert(0 <= qy * pr + qx < pr * pc) by (nonlinear_arith)
        requires
            0 <= qx < pr,
            0 <= qy < pc,
    ;
    let o = block_origin(k, pr, bs);
    if qy * pr + qx == k {
        lemma_fundamental_div_mod_converse(k, pr, qy, qx);
        assert(o.0 == qx * bs && o.1 == qy * bs);
        assert(o.0 <= x < o.0 + bs && o.1 <= y < o.1 + bs) by (nonlinear_arith)
            requires
                x == bs * qx + x % bs,
                y == bs * qy + y % bs,
                0 <= x % bs < bs,
                0 <= y % bs < bs,
                o.0 == qx * bs,
                o.1 == qy * bs,
        ;
    }
    if o.0 <= x < o.0 + bs && o.1 <= y < o.1 + bs {
        let a = k % pr;
        let b = k / pr;
        lemma_fundamental_div_mod_converse(x, bs, a, x - a * bs);
        lemma_fundamental_div_mod_converse(y, bs, b, y - b * bs);
        assert(k == b * pr + a);
    }
}

/// Maps leaf indices to block origins and back, for a buffer of a given size
/// cut into square blocks of a given size.
pub struct BlockProjector {
    width: u32,
    height: u32,
    block_size: u32,
}

impl BlockProjector {
    pub closed spec fn spec_width(&self) -> int {
        self.width as int
    }

    pub closed spec fn spec_height(&self) -> int {
        self.height as int
    }

    pub closed spec fn spec_block_size(&self) -> int {
        self.block_size as int
    }

    pub open spec fn per_row(&self) -> int {
        blocks_across(self.spec_width(), self.spec_block_size())
    }

    pub open spec fn spec_leaf_count(&self) -> int {
        self.per_row() * blocks_across(self.spec_height(), self.spec_block_size())
    }

    pub closed spec fn wf(&self) -> bool {
        self.block_size > 0
    }

    /// A projector for a `width × height` buffer; a block size of zero is refused.
    pub fn new(width: u32, height: u32, block_size: u32) -> (r: Result<BlockProjector, IntegrityError>)
        ensures
            r is Err <==> block_size == 0,
            r is Err ==> r == Err::<BlockProjector, IntegrityError>(IntegrityError::InvalidBlockSize),
            r is Ok ==> {
                let p = r.unwrap();
                &&& p.wf()
                &&& p.spec_width() == width
                &&& p.spec_height() == height
                &&& p.spec_block_size() == block_size
            },
    {
        if block_size == 0 {
            return Err(IntegrityError::InvalidBlockSize);
        }
        Ok(BlockProjector { width, height, block_size })
    }

    /// The number of blocks in a row: the width divided by the block size, rounded up.
    pub fn blocks_per_row(&self) -> (r: u64)
        requires
            self.wf(),
        ensures
            r == self.per_row(),
    {
        (self.width as u64 + self.block_size as u64 - 1) / self.block_size as u64
    }

    /// The number of blocks that cover the buffer.
    pub fn leaf_count(&self) -> (r: u64)
        requires
            self.wf(),
        ensures
            r == self.spec_leaf_count(),
    {
        let pr = self.blocks_per_row();
        let pc = (self.height as u64 + self.block_size as u64 - 1) / self.block_size as u64;
        proof {
            lemma_across(self.width as int, self.block_size as int);
            lemma_across(self.height as int, self.block_size as int);
            assert(pr <= self.width && pc <= self.height) by {
                if pr > self.width {
                    assert((self.width as int) * (self.block_size as int) < self.width as int);
                    assert(false) by (nonlinear_arith)
                        requires
                            (self.width as int) * (self.block_size as int) < self.width as int,
                            self.block_size > 0,
                            self.width >= 0,
                    ;
                }
                if pc > self.height {
                    assert((self.height as int) * (self.block_size as int) < self.height as int);
                    assert(false) by (nonlinear_arith)
                        requires
                            (self.height as int) * (self.block_size as int) < self.height as int,
                            self.block_size > 0,
                            self.height >= 0,
                    ;
                }
            }
            assert(pr * pc <= 0xffff_ffff_ffff_ffff) by (nonlinear_arith)
                requires
                    pr <= 0xffff_ffff,
                    pc <= 0xffff_ffff,
            ;
        }
        pr * pc
    }

    /// The pixel origin of block `i`: `((i mod per_row) * block_size, (i div per_row) * block_size)`.
    pub fn index_to_coords(&self, i: u64) -> (r: (u32, u32))
        requires
            self.wf(),
            i < self.spec_leaf_count(),
        ensures
            (r.0 as int, r.1 as int) == block_origin(i as int, self.per_row(), self.spec_block_size()),
    {
        proof {
            lemma_origin_inside(i as int, self.width as int, self.height as int, self.block_size as int);
        }
        let pr = self.blocks_per_row();
        let x = (i % pr) * self.block_size as u64;
        let y = (i / pr) * self.block_size as u64;
        (x as u32, y as u32)
    }

    /// The index of the block whose origin is `(x, y)`; none when `(x, y)` is
    /// not a block origin inside the buffer.
    pub fn coords_to_index(&self, x: u32, y: u32) -> (r: Option<u64>)
        requires
            self.wf(),
        ensures
            r matches Some(i) ==> origin_index(x as int, y as int, self.spec_width(), self.spec_height(), self.spec_block_size()) == Some(i as int),
            r is None ==> origin_index(x as int, y as int, self.spec_width(), self.spec_height(), self.spec_block_size()) is None,
    {
        if x >= self.width || y >= self.height || x % self.block_size != 0 || y % self.block_size != 0 {
            return None;
        }
        let pr = self.blocks_per_row();
        proof {
            lemma_across(self.width as int, self.block_size as int);
            lemma_across(self.height as int, self.block_size as int);
            lemma_block_index_range(x as int, y as int, self.width as int, self.height as int, self.block_size as int);
            let pc = blocks_across(self.height as int, self.block_size as int);
            assert(pr * pc <= 0xffff_ffff_ffff_ffff) by {
                self.leaf_count_fits();
            }
        }
        let row = (y / self.block_size) as u64;
        let col = (x / self.block_size) as u64;
        Some(row * pr + col)
    }

    proof fn leaf_count_fits(&self)
        requires
            self.wf(),
        ensures
            self.spec_leaf_count() <= 0xffff_ffff_ffff_ffff,
    {
        let pr = self.per_row();
        let pc = blocks_across(self.height as int, self.block_size as int);
        lemma_across(self.width as int, self.block_size as int);
        lemma_across(self.height as int, self.block_size as int);
        if pr > self.width {
            assert(false) by (nonlinear_arith)
                requires
                    (self.width as int) * (self.block_size as int) < self.width as int,
                    self.block_size > 0,
                    self.width >= 0,
            ;
        }
        if pc > self.height {
            assert(false) by (nonlinear_arith)
                requires
                    (self.height as int) * (self.block_size as int) < self.height as int,
                    self.block_size > 0,
                    self.height >= 0,
            ;
        }
        assert(pr * pc <= 0xffff_ffff_ffff_ffff) by (nonlinear_arith)
            requires
                0 <= pr <= 0xffff_ffff,
                0 <= pc <= 0xffff_ffff,
        ;
    }
}

/// Every leaf index maps to a block origin that maps back to the same index.
pub proof fn lemma_projection_round_trip(width: int, height: int, bs: int, i: int)
    requires
        0 < bs,
        0 <= width,
        0 <= height,
        0 <= i < blocks_across(width, bs) * blocks_across(height, bs),
    ensures
        origin_index(
            block_origin(i, blocks_across(width, bs), bs).0,
            block_origin(i, blocks_across(width, bs), bs).1,
            width,
            height,
            bs,
        ) == Some(i),
{
    let pr = blocks_across(width, bs);
    let o = block_origin(i, pr, bs);
    lemma_origin_inside(i, width, height, bs);
    lemma_fundamental_div_mod_converse(o.0, bs, i % pr, 0);
    lemma_fundamental_div_mod_converse(o.1, bs, i / pr, 0);
}

/// Pixel `(bx, by)` of block `k` cut from `img`: the image pixel it covers,
/// or blank where the block reaches past the image's edge.
pub open spec fn block_pixel(img: PixelBuffer, bs: int, k: int, bx: int, by: int) -> Seq<u8> {
    let o = block_origin(k, blocks_across(img.w() as int, bs), bs);
    if o.0 + bx < img.w() && o.1 + by < img.h() {
        img.pixel(o.0 + bx, o.1 + by)
    } else {
        blank()
    }
}

/// Cuts an image into `block_size × block_size` blocks in row-major order of
/// their origins. Pixels of a block that fall outside the image are blank.
/// A block size of zero is refused.
pub fn slice_image_into_blocks(image: &PixelBuffer, block_size: u32) -> (r: Result<Vec<PixelBuffer>, IntegrityError>)
    requires
        image.wf(),
        4 * block_size * block_size <= usize::MAX,
    ensures
        r is Err <==> block_size == 0,
        r is Err ==> r == Err::<Vec<PixelBuffer>, IntegrityError>(IntegrityError::InvalidBlockSize),
        r is Ok ==> {
            let v = r.unwrap()@;
            &&& v.len() == blocks_across(image.w() as int, block_size as int) * blocks_across(image.h() as int, block_size as int)
            &&& forall|k: int| 0 <= k < v.len() ==> {
                &&& (#[trigger] v[k]).wf()
                &&& v[k].w() == block_size
                &&& v[k].h() == block_size
                &&& forall|bx: int, by: int| 0 <= bx < block_size && 0 <= by < block_size
                    ==> #[trigger] v[k].pixel(bx, by) == block_pixel(*image, block_size as int, k, bx, by)
            }
        },
{
    let proj = match BlockProjector::new(image.width(), image.height(), block_size) {
        Ok(p) => p,
        Err(e) => {
            return Err(e);
        },
    };
    let n = proj.leaf_count();
    let mut blocks: Vec<PixelBuffer> = Vec::new();
    let mut k: u64 = 0;
    while k < n
        invariant
            proj.wf(),
            proj.spec_width() == image.w(),
            proj.spec_height() == image.h(),
            proj.spec_block_size() == block_size,
            n == proj.spec_leaf_count(),
            image.wf(),
            4 * block_size * block_size <= usize::MAX,
            k <= n,
            blocks@.len() == k,
            forall|j: int| 0 <= j < k ==> {
                &&& (#[trigger] blocks@[j]).wf()
                &&& blocks@[j].w() == block_size
                &&& blocks@[j].h() == block_size
                &&& forall|bx: int, by: int| 0 <= bx < block_size && 0 <= by < block_size
                    ==> #[trigger] blocks@[j].pixel(bx, by) == block_pixel(*image, block_size as int, j, bx, by)
            },
        decreases n - k,
    {
        let (ox, oy) = proj.index_to_coords(k);
        let mut b = PixelBuffer::new(block_size, block_size);
        copy_rect(&mut b, image, ox, oy, 0, 0, block_size, block_size);
        blocks.push(b);
        k = k + 1;
    }
    Ok(blocks)
}

/// Pixel `(x, y)` of the restored image: a flagged block is taken from its
/// recovered copy (blank where that copy is smaller), any other block from
/// the original, and blocks past the end of the tamper vector stay blank.
pub open spec fn restored_pixel(
    original: PixelBuffer,
    tamper: Seq<u32>,
    recovered: Seq<Option<PixelBuffer>>,
    bs: int,
    x: int,
    y: int,
) -> Seq<u8> {
    let pr = blocks_across(original.w() as int, bs);
    let k = block_index(x, y, pr, bs);
    let o = block_origin(k, pr, bs);
    if k < tamper.len() {
        if tamper[k] == 1 {
            let b = recovered[k].unwrap();
            if x - o.0 < b.w() && y - o.1 < b.h() {
                b.pixel(x - o.0, y - o.1)
            } else {
                blank()
            }
        } else {
            original.pixel(x, y)
        }
    } else {
        blank()
    }
}

/// Rebuilds an image from a tamper vector: every block flagged 1 is taken
/// from the recovered block at its position, every other block is copied
/// from the original. A block size of zero is refused.
pub fn restore_tampered_blocks(
    original: &PixelBuffer,
    tamper: &Vec<u32>,
    recovered: &Vec<Option<PixelBuffer>>,
    block_size: u32,
) -> (r: Result<PixelBuffer, IntegrityError>)
    requires
        original.wf(),
        recovered@.len() == tamper@.len(),
        forall|k: int| 0 <= k < tamper@.len() && #[trigger] tamper@[k] == 1
            ==> recovered@[k] is Some && recovered@[k].unwrap().wf(),
    ensures
        r is Err <==> block_size == 0,
        r is Err ==> r == Err::<PixelBuffer, IntegrityError>(IntegrityError::InvalidBlockSize),
        r is Ok ==> {
            let img = r.unwrap();
            &&& img.wf()
            &&& img.w() == original.w()
            &&& img.h() == original.h()
            &&& forall|x: int, y: int| 0 <= x < img.w() && 0 <= y < img.h()
                ==> #[trigger] img.pixel(x, y) == restored_pixel(*original, tamper@, recovered@, block_size as int, x, y)
        },
{
    let width = original.width();
    let height = original.height();
    let proj = match BlockProjector::new(width, height, block_size) {
        Ok(p) => p,
        Err(e) => {
            return Err(e);
        },
    };
    let ghost bs = block_size as int;
    let ghost pr = blocks_across(width as int, bs);
    let n = proj.leaf_count();
    proof {
        assert(4 * width * height <= usize::MAX) by {
            original.lemma_raw_len();
        }
    }
    let mut canvas = PixelBuffer::new(width, height);
    let mut k: usize = 0;
    while k < tamper.len()
        invariant
            proj.wf(),
            proj.spec_width() == width,
            proj.spec_height() == height,
            proj.spec_block_size() == block_size,
            n == proj.spec_leaf_count(),
            original.wf(),
            width == original.w(),
            height == original.h(),
            pr == blocks_across(width as int, bs),
            bs == block_size,
            bs > 0,
            recovered@.len() == tamper@.len(),
            forall|j: int| 0 <= j < tamper@.len() && #[trigger] tamper@[j] == 1
                ==> recovered@[j] is Some && recovered@[j].unwrap().wf(),
            k <= tamper@.len(),
            canvas.wf(),
            canvas.w() == width,
            canvas.h() == height,
            forall|x: int, y: int| 0 <= x < width && 0 <= y < height ==> #[trigger] canvas.pixel(x, y)
                == if block_index(x, y, pr, bs) < k {
                restored_pixel(*original, tamper@, recovered@, bs, x, y)
            } else {
                blank()
            },
        decreases tamper@.len() - k,
    {
        let ghost before = canvas;
        if (k as u64) < n {
            let (ox, oy) = proj.index_to_coords(k as u64);
            if tamper[k] == 1 {
                match &recovered[k] {
                    Some(b) => {
                        copy_rect(&mut canvas, b, 0, 0, ox, oy, block_size, block_size);
                    },
                    None => {},
                }
            } else {
                copy_rect(&mut canvas, original, ox, oy, ox, oy, block_size, block_size);
            }
            assert forall|x: int, y: int| 0 <= x < width && 0 <= y < height implies #[trigger] canvas.pixel(x, y)
                == if block_index(x, y, pr, bs) < k + 1 {
                restored_pixel(*original, tamper@, recovered@, bs, x, y)
            } else {
                blank()
            } by {
                lemma_pixel_block(x, y, k as int, width as int, height as int, bs);
            }
        } else {
            assert forall|x: int, y: int| 0 <= x < width && 0 <= y < height implies #[trigger] canvas.pixel(x, y)
                == if block_index(x, y, pr, bs) < k + 1 {
                restored_pixel(*original, tamper@, recovered@, bs, x, y)
            } else {
                blank()
            } by {
                lemma_block_index_range(x, y, width as int, height as int, bs);
            }
        }
        k = k + 1;
    }
    Ok(canvas)
}

} // verus!
