//! RGBA pixel buffers: four bytes per pixel, rows stored top to bottom.
use vstd::prelude::*;

verus! {

/// A rectangular RGBA pixel buffer.
pub struct PixelBuffer {
    width: u32,
    height: u32,
    data: Vec<u8>,
}

/// The byte offset of pixel `(x, y)` in a buffer `w` pixels wide.
pub open spec fn offset(w: int, x: int, y: int) -> int {
    4 * (y * w + x)
}

/// The fully transparent black pixel.
pub open spec fn blank() -> Seq<u8> {
    seq![0u8, 0u8, 0u8, 0u8]
}

proof fn lemma_offset_in_bounds(w: int, h: int, x: int, y: int)
    requires
        0 <= x < w,
        0 <= y < h,
    ensures
        0 <= y * w,
        0 <= w * h,
        y * w + x < w * h,
        0 <= offset(w, x, y),
        offset(w, x, y) + 4 <= 4 * w * h,
        4 * w * h == 4 * (w * h),
{
    assert(y * w + x < w * h) by (nonlinear_arith)
        requires
            0 <= x < w,
            0 <= y < h,
    ;
    assert(0 <= y * w) by (nonlinear_arith)
        requires
            0 <= y,
            0 <= w,
    ;
    assert(4 * (w * h) == 4 * w * h) by (nonlinear_arith);
    assert(0 <= w * h) by (nonlinear_arith)
        requires
            0 <= x < w,
            0 <= y < h,
    ;
}

proof fn lemma_offsets_apart(w: int, x1: int, y1: int, x2: int, y2: int)
    requires
        0 <= x1 < w,
        0 <= x2 < w,
        0 <= y1,
        0 <= y2,
        x1 != x2 || y1 != y2,
    ensures
        offset(w, x1, y1) + 4 <= offset(w, x2, y2) || offset(w, x2, y2) + 4 <= offset(w, x1, y1),
{
    if y1 < y2 {
        assert(y1 * w + x1 < y2 * w + x2) by (nonlinear_arith)
            requires
                0 <= x1 < w,
                0 <= x2,
                y1 < y2,
        ;
    } else if y2 < y1 {
        assert(y2 * w + x2 < y1 * w + x1) by (nonlinear_arith)
            requires
                0 <= x2 < w,
                0 <= x1,
                y2 < y1,
        ;
    }
}

impl PixelBuffer {
    pub closed spec fn w(&self) -> nat {
        self.width as nat
    }

    pub closed spec fn h(&self) -> nat {
        self.height as nat
    }

    /// The raw bytes: pixels row by row, four channels each.
    pub closed spec fn raw(&self) -> Seq<u8> {
        self.data@
    }

    pub closed spec fn wf(&self) -> bool {
        &&& self.data@.len() == 4 * self.width * self.height
        &&& self.data@.len() <= usize::MAX
    }

    /// The four channels of pixel `(x, y)`.
    pub open spec fn pixel(&self, x: int, y: int) -> Seq<u8> {
        self.raw().subrange(offset(self.w() as int, x, y), offset(self.w() as int, x, y) + 4)
    }

    /// A buffer of the given size whose pixels are all blank.
    pub fn new(width: u32, height: u32) -> (r: PixelBuffer)
        requires
            4 * width * height <= usize::MAX,
        ensures
            r.wf(),
            r.w() == width,
            r.h() == height,
            r.raw() == Seq::new((4 * width * height) as nat, |k: int| 0u8),
            forall|x: int, y: int| 0 <= x < width && 0 <= y < height ==> #[trigger] r.pixel(x, y) == blank(),
    {
        assert(width * height <= 4 * width * height && 4 * width * height == (width * height) * 4) by (nonlinear_arith);
        let wh: usize = (width as usize) * (height as usize);
        let n: usize = wh * 4;
        let mut data: Vec<u8> = Vec::new();
        for i in 0..n
            invariant
                data@ == Seq::new(i as nat, |k: int| 0u8),
        {
            data.push(0);
            assert(data@ =~= Seq::new((i + 1) as nat, |k: int| 0u8));
        }
        let r = PixelBuffer { width, height, data };
        assert forall|x: int, y: int| 0 <= x < width && 0 <= y < height implies #[trigger] r.pixel(x, y) == blank() by {
            lemma_offset_in_bounds(width as int, height as int, x, y);
            assert(r.pixel(x, y) =~= blank());
        }
        r
    }

    /// A buffer over raw RGBA bytes, or none when their length is not four
    /// bytes per pixel.
    pub fn from_raw(width: u32, height: u32, data: Vec<u8>) -> (r: Option<PixelBuffer>)
        ensures
            r is Some <==> data@.len() == 4 * width * height,
            r is Some ==> {
                let b = r.unwrap();
                b.wf() && b.w() == width && b.h() == height && b.raw() == data@
            },
    {
        assert((width as u128) * (height as u128) <= 0xffff_ffff_ffff_ffff_ffff_ffff) by (nonlinear_arith)
            requires
                width <= u32::MAX,
                height <= u32::MAX,
        ;
        let need: u128 = 4 * ((width as u128) * (height as u128));
        assert(need == 4 * width * height) by (nonlinear_arith)
            requires
                need == 4 * ((width as u128) * (height as u128)),
        ;
        if data.len() as u128 != need {
            return None;
        }
        Some(PixelBuffer { width, height, data })
    }

    /// A well-formed buffer's byte count is four per pixel and fits in memory.
    pub proof fn lemma_raw_len(&self)
        requires
            self.wf(),
        ensures
            self.raw().len() == 4 * self.w() * self.h(),
            4 * self.w() * self.h() <= usize::MAX,
    {
    }

    pub fn width(&self) -> (r: u32)
        ensures
            r == self.w(),
    {
        self.width
    }

    pub fn height(&self) -> (r: u32)
        ensures
            r == self.h(),
    {
        self.height
    }

    /// The raw bytes: pixels row by row, four channels each.
    pub fn as_raw(&self) -> (r: &Vec<u8>)
        ensures
            r@ == self.raw(),
    {
        &self.data
    }

    /// The four channels of pixel `(x, y)`.
    pub fn get_pixel(&self, x: u32, y: u32) -> (r: [u8; 4])
        requires
            self.wf(),
            x < self.w(),
            y < self.h(),
        ensures
            r@ == self.pixel(x as int, y as int),
    {
        proof {
            lemma_offset_in_bounds(self.width as int, self.height as int, x as int, y as int);
        }
        let row: usize = (y as usize) * (self.width as usize);
        let o: usize = 4 * (row + (x as usize));
        let r = [self.data[o], self.data[o + 1], self.data[o + 2], self.data[o + 3]];
        assert(r@ =~= self.pixel(x as int, y as int));
        r
    }

    /// Sets pixel `(x, y)`, leaving every other pixel as it was.
    pub fn put_pixel(&mut self, x: u32, y: u32, p: [u8; 4])
        requires
            old(self).wf(),
            x < old(self).w(),
            y < old(self).h(),
        ensures
            final(self).wf(),
            final(self).w() == old(self).w(),
            final(self).h() == old(self).h(),
            forall|x2: int, y2: int|
                0 <= x2 < old(self).w() && 0 <= y2 < old(self).h() ==> #[trigger] final(self).pixel(x2, y2)
                    == if x2 == x && y2 == y {
                    p@
                } else {
                    old(self).pixel(x2, y2)
                },
    {
        proof {
            lemma_offset_in_bounds(self.width as int, self.height as int, x as int, y as int);
        }
        let row: usize = (y as usize) * (self.width as usize);
        let o: usize = 4 * (row + (x as usize));
        self.data.set(o, p[0]);
        self.data.set(o + 1, p[1]);
        self.data.set(o + 2, p[2]);
        self.data.set(o + 3, p[3]);
        assert forall|x2: int, y2: int|
            0 <= x2 < old(self).w() && 0 <= y2 < old(self).h() implies #[trigger] self.pixel(x2, y2)
                == if x2 == x && y2 == y {
                p@
            } else {
                old(self).pixel(x2, y2)
            } by {
            lemma_offset_in_bounds(self.width as int, self.height as int, x2, y2);
            if x2 == x && y2 == y {
                assert(self.pixel(x2, y2) =~= p@);
            } else {
                lemma_offsets_apart(self.width as int, x as int, y as int, x2, y2);
                assert(self.pixel(x2, y2) =~= old(self).pixel(x2, y2));
            }
        }
    }
}

/// Whether a copy of the `w × h` rectangle at `(sx, sy)` of a `sw × sh`
/// source onto `(dx, dy)` writes pixel `(x, y)`: it lies in the target
/// rectangle and its source pixel lies in the source.
pub open spec fn copies(x: int, y: int, dx: int, dy: int, w: int, h: int, sx: int, sy: int, sw: int, sh: int) -> bool {
    &&& dx <= x < dx + w
    &&& dy <= y < dy + h
    &&& sx + (x - dx) < sw
    &&& sy + (y - dy) < sh
}

/// Copies the `w × h` rectangle at `(sx, sy)` of `src` onto `dst` at
/// `(dx, dy)`, skipping pixels that fall outside either buffer.
pub fn copy_rect(dst: &mut PixelBuffer, src: &PixelBuffer, sx: u32, sy: u32, dx: u32, dy: u32, w: u32, h: u32)
    requires
        old(dst).wf(),
        src.wf(),
    ensures
        final(dst).wf(),
        final(dst).w() == old(dst).w(),
        final(dst).h() == old(dst).h(),
        forall|x: int, y: int|
            0 <= x < old(dst).w() && 0 <= y < old(dst).h() ==> #[trigger] final(dst).pixel(x, y) == if copies(
                x,
                y,
                dx as int,
                dy as int,
                w as int,
                h as int,
                sx as int,
                sy as int,
                src.w() as int,
                src.h() as int,
            ) {
                src.pixel(sx + x - dx, sy + y - dy)
            } else {
                old(dst).pixel(x, y)
            },
{
    let ghost d0 = *dst;
    let sw = src.width();
    let sh = src.height();
    let tw = dst.width();
    let th = dst.height();
    let mut by: u32 = 0;
    while by < h
        invariant
            dst.wf(),
            src.wf(),
            dst.w() == d0.w(),
            dst.h() == d0.h(),
            sw == src.w(),
            sh == src.h(),
            tw == d0.w(),
            th == d0.h(),
            by <= h,
            forall|x: int, y: int|
                0 <= x < d0.w() && 0 <= y < d0.h() ==> #[trigger] dst.pixel(x, y) == if copies(
                    x,
                    y,
                    dx as int,
                    dy as int,
                    w as int,
                    by as int,
                    sx as int,
                    sy as int,
                    sw as int,
                    sh as int,
                ) {
                    src.pixel(sx + x - dx, sy + y - dy)
                } else {
                    d0.pixel(x, y)
                },
        decreases h - by,
    {
        let mut bx: u32 = 0;
        while bx < w
            invariant
                dst.wf(),
                src.wf(),
                dst.w() == d0.w(),
                dst.h() == d0.h(),
                sw == src.w(),
                sh == src.h(),
                tw == d0.w(),
                th == d0.h(),
                by < h,
                bx <= w,
                forall|x: int, y: int|
                    0 <= x < d0.w() && 0 <= y < d0.h() ==> #[trigger] dst.pixel(x, y) == if copies(
                        x,
                        y,
                        dx as int,
                        dy as int,
                        w as int,
                        by as int,
                        sx as int,
                        sy as int,
                        sw as int,
                        sh as int,
                    ) || (y == dy + by && copies(
                        x,
                        y,
                        dx as int,
                        dy as int,
                        bx as int,
                        by + 1,
                        sx as int,
                        sy as int,
                        sw as int,
                        sh as int,
                    )) {
                        src.pixel(sx + x - dx, sy + y - dy)
                    } else {
                        d0.pixel(x, y)
                    },
            decreases w - bx,
        {
            let tx: u64 = dx as u64 + bx as u64;
            let ty: u64 = dy as u64 + by as u64;
            let ux: u64 = sx as u64 + bx as u64;
            let uy: u64 = sy as u64 + by as u64;
            if tx < tw as u64 && ty < th as u64 && ux < sw as u64 && uy < sh as u64 {
                let p = src.get_pixel(ux as u32, uy as u32);
                dst.put_pixel(tx as u32, ty as u32, p);
            }
            bx = bx + 1;
        }
        by = by + 1;
    }
}

} // verus!
