//! The two operations on a bitmap: bleeding colour into the transparent
//! pixels, and setting one alpha for all pixels.

use vstd::prelude::*;
use crate::bitmap::{dimensions, get_pixel, put_pixel, Bitmap, Grid, Rgba8};
use crate::frontier::{classify, seed, start};
use crate::grid::{index_of, lemma_index_bound};
use crate::laws::{
    lemma_opaque_pixels_unchanged, lemma_pixel_not_reached_unchanged,
    lemma_reached_pixel_is_resolved,
    lemma_unreachable_pixel_unchanged, reached, resolved_in_round, out_of_reach,
};
use crate::propagate::propagate;

verus! {

/// Why bleeding could not be carried out.
#[derive(Clone, Copy, Debug, PartialEq, Eq, Structural)]
pub enum FixError {
    /// The grid of pixel states does not have the size of the bitmap.
    StateGridMismatch,
}

/// The alpha that bleeding gives to the pixels it resolves: 255 where they
/// are to be opaque, otherwise 0.
pub open spec fn target_alpha(set_opaque: bool) -> u8 {
    if set_opaque {
        255
    } else {
        0
    }
}

/// The bitmap after bleeding: the pixels are classified, the first layer is
/// seeded, and rounds follow one another until none is left to run.
pub open spec fn bleed(g: Grid, alpha: u8) -> Grid {
    start(g).finish(alpha).grid
}

/// The bitmap with `a` for the alpha of every pixel.
pub open spec fn with_alpha(g: Grid, a: u8) -> Grid {
    Grid {
        width: g.width,
        height: g.height,
        pixels: Seq::new(
            g.pixels.len(),
            |i: int| Rgba8 { r: g.pixels[i].r, g: g.pixels[i].g, b: g.pixels[i].b, a: a },
        ),
    }
}

/// Sets the alpha of every pixel to `a` and leaves the colours alone.
pub fn set_alpha(img: &mut Bitmap, a: u8)
    ensures
        final(img)@ == with_alpha(old(img)@, a),
        final(img)@.wf(),
        final(img).spare() == old(img).spare(),
        final(img).bytes().len() == old(img).bytes().len(),
{
    let (w, h) = dimensions(img);
    let ghost done = with_alpha(img@, a).pixels;
    let mut y: u32 = 0;
    while y < h
        invariant
            y <= h,
            img@.width == w,
            img@.height == h,
            img@.width == old(img)@.width,
            img@.height == old(img)@.height,
            img.spare() == old(img).spare(),
            img.bytes().len() == old(img).bytes().len(),
            old(img)@.pixels.len() == w * h,
            done == with_alpha(old(img)@, a).pixels,
            img@.pixels == done.take(y * w) + old(img)@.pixels.skip(y * w),
        decreases h - y,
    {
        let mut x: u32 = 0;
        while x < w
            invariant
                x <= w,
                y < h,
                img@.width == w,
                img@.height == h,
                img@.width == old(img)@.width,
                img@.height == old(img)@.height,
                img.spare() == old(img).spare(),
                img.bytes().len() == old(img).bytes().len(),
                old(img)@.pixels.len() == w * h,
                done == with_alpha(old(img)@, a).pixels,
                img@.pixels == done.take(y * w + x) + old(img)@.pixels.skip(y * w + x),
            decreases w - x,
        {
            proof {
                lemma_index_bound(w as int, h as int, x as int, y as int);
            }
            let p = get_pixel(img, x, y);
            put_pixel(img, x, y, Rgba8 { r: p.r, g: p.g, b: p.b, a: a });
            proof {
                let i = index_of(w as int, x as int, y as int);
                assert(img@.pixels =~= done.take(i + 1) + old(img)@.pixels.skip(i + 1));
            }
            x += 1;
        }
        proof {
            assert((y + 1) * w == y * w + w) by (nonlinear_arith);
        }
        y += 1;
    }
    proof {
        assert(h * w == w * h) by (nonlinear_arith);
        assert(img@.pixels =~= done);
    }
}

/// Carries the colour of the opaque pixels into the transparent pixels
/// around them, layer by layer: each pixel reached takes the mean colour of
/// the pixels around it that were resolved before its round. It takes alpha
/// 255 if `set_opaque`, else alpha 0. Pixels with an alpha above zero are
/// left as they are.
pub fn fix_alpha(img: &mut Bitmap, set_opaque: bool) -> (r: Result<(), FixError>)
    ensures
        r is Ok,
        final(img)@ == bleed(old(img)@, target_alpha(set_opaque)),
        final(img)@.wf(),
        final(img).spare() == old(img).spare(),
        final(img).bytes().len() == old(img).bytes().len(),
        final(img)@.width == old(img)@.width,
        final(img)@.height == old(img)@.height,
        final(img)@.pixels.len() == old(img)@.pixels.len(),
        forall|i: int|
            0 <= i < old(img)@.pixels.len() && old(img)@.pixels[i].a > 0
                ==> #[trigger] final(img)@.pixels[i] == old(img)@.pixels[i],
        forall|x: int, y: int|
            old(img)@.has(x, y) && out_of_reach(old(img)@, x, y) ==> #[trigger] final(img)@.at(x, y)
                == old(img)@.at(x, y),
        forall|x: int, y: int|
            old(img)@.has(x, y) && !reached(old(img)@, x, y) ==> #[trigger] final(img)@.at(x, y)
                == old(img)@.at(x, y),
        forall|x: int, y: int|
            #[trigger] reached(old(img)@, x, y) ==> exists|n: nat|
                resolved_in_round(old(img)@, target_alpha(set_opaque), n, x, y),
{
    let alpha: u8 = if set_opaque {
        255
    } else {
        0
    };
    let (w, h) = dimensions(img);
    let mut stages = classify(img, w, h);
    let layer = seed(&mut stages, w, h);
    propagate(img, &mut stages, layer, w, h, alpha);
    proof {
        let g = old(img)@;
        lemma_opaque_pixels_unchanged(g, alpha);
        assert forall|x: int, y: int| g.has(x, y) && out_of_reach(g, x, y) implies #[trigger] bleed(
            g,
            alpha,
        ).at(x, y) == g.at(x, y) by {
            lemma_unreachable_pixel_unchanged(g, alpha, x, y);
        }
        assert forall|x: int, y: int| g.has(x, y) && !reached(g, x, y) implies #[trigger] bleed(
            g,
            alpha,
        ).at(x, y) == g.at(x, y) by {
            lemma_pixel_not_reached_unchanged(g, alpha, x, y);
        }
        assert forall|x: int, y: int| #[trigger] reached(g, x, y) implies exists|n: nat|
            resolved_in_round(g, alpha, n, x, y) by {
            lemma_reached_pixel_is_resolved(g, alpha, x, y);
        }
    }
    Ok(())
}

} // verus!
