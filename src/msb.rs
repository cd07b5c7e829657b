//! Most-significant-bit planes of RGBA images, and their coarse inverse.
use vstd::prelude::*;

use crate::raster::PixelBuffer;

verus! {

/// A channel reduced to its most significant bit, scaled to full intensity.
pub open spec fn msb_level(c: u8) -> u8 {
    if c >= 128 {
        255
    } else {
        0
    }
}

/// A channel of an MSB plane mapped back to the middle of its half range.
pub open spec fn normal_level(c: u8) -> u8 {
    if c == 255 {
        192
    } else {
        64
    }
}

/// The raw bytes of the MSB plane: colour channels reduced to their most
/// significant bit, alpha opaque.
pub open spec fn msb_raw(raw: Seq<u8>) -> Seq<u8> {
    Seq::new(raw.len(), |k: int| if k % 4 == 3 { 255u8 } else { msb_level(raw[k]) })
}

/// The raw bytes of the approximated image: colour channels of full
/// intensity become 192, others 64, alpha opaque.
pub open spec fn normal_raw(raw: Seq<u8>) -> Seq<u8> {
    Seq::new(raw.len(), |k: int| if k % 4 == 3 { 255u8 } else { normal_level(raw[k]) })
}

/// The image whose raw bytes are `raw` channel by channel mapped through
/// `msb` (when `to_msb`) or back to normal levels.
fn map_channels(img: &PixelBuffer, to_msb: bool) -> (r: PixelBuffer)
    requires
        img.wf(),
    ensures
        r.wf(),
        r.w() == img.w(),
        r.h() == img.h(),
        r.raw() == if to_msb {
            msb_raw(img.raw())
        } else {
            normal_raw(img.raw())
        },
{
    let raw = img.as_raw();
    let ghost target = if to_msb {
        msb_raw(img.raw())
    } else {
        normal_raw(img.raw())
    };
    let mut out: Vec<u8> = Vec::new();
    for k in 0..raw.len()
        invariant
            raw@ == img.raw(),
            target == if to_msb {
                msb_raw(img.raw())
            } else {
                normal_raw(img.raw())
            },
            out@ == target.subrange(0, k as int),
    {
        let c = raw[k];
        let v: u8 = if k % 4 == 3 {
            255
        } else if to_msb {
            if c >= 128 {
                255
            } else {
                0
            }
        } else {
            if c == 255 {
                192
            } else {
                64
            }
        };
        out.push(v);
        assert(out@ =~= target.subrange(0, k + 1));
    }
    assert(out@ =~= target);
    proof {
        img.lemma_raw_len();
    }
    let r = PixelBuffer::from_raw(img.width(), img.height(), out);
    r.unwrap()
}

/// The MSB plane of an image: each colour channel 255 where its most
/// significant bit is set and 0 where not, alpha 255.
pub fn extract_msb(img: &PixelBuffer) -> (r: PixelBuffer)
    requires
        img.wf(),
    ensures
        r.wf(),
        r.w() == img.w(),
        r.h() == img.h(),
        r.raw() == msb_raw(img.raw()),
{
    map_channels(img, true)
}

/// An approximation of an image from its MSB plane: each colour channel 192
/// where the plane holds 255 and 64 elsewhere, alpha 255.
pub fn convert_msb_to_normal(msb_img: &PixelBuffer) -> (r: PixelBuffer)
    requires
        msb_img.wf(),
    ensures
        r.wf(),
        r.w() == msb_img.w(),
        r.h() == msb_img.h(),
        r.raw() == normal_raw(msb_img.raw()),
{
    map_channels(msb_img, false)
}

} // verus!
