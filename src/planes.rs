use vstd::prelude::*;
use crate::grid::{RgbaGrid, RgbGrid, rgba_at, rgb_at};
use crate::palette::{Rgb, black, white, dark_red, tri_color};
use crate::dither::{dither, dither_picks, full_window, renders};

verus! {

/// The red-ink mask of a pixel: red becomes ink (black), black becomes paper
/// (white), anything else stays.
pub open spec fn red_plane(p: Rgb) -> Rgb {
    if p.r == 127 {
        black()
    } else if p == black() {
        white()
    } else {
        p
    }
}

/// The black-ink mask of a pixel: red becomes ink (black), anything else stays.
pub open spec fn black_plane(p: Rgb) -> Rgb {
    if p.r == 127 {
        black()
    } else {
        p
    }
}

/// The three output images of a dithering run.
pub struct Planes {
    /// The tri-colour preview.
    pub combined: RgbGrid,
    /// The mask printed with red ink.
    pub red_only: RgbGrid,
    /// The mask printed with black ink.
    pub black_only: RgbGrid,
}

pub fn red_ink(p: Rgb) -> (r: Rgb)
    ensures
        r == red_plane(p),
{
    if p.r == 127 {
        Rgb { r: 0, g: 0, b: 0 }
    } else if p.r == 0 && p.g == 0 && p.b == 0 {
        Rgb { r: 255, g: 255, b: 255 }
    } else {
        p
    }
}

pub fn black_ink(p: Rgb) -> (r: Rgb)
    ensures
        r == black_plane(p),
{
    if p.r == 127 {
        Rgb { r: 0, g: 0, b: 0 }
    } else {
        p
    }
}

fn push_rgb(out: &mut Vec<u8>, p: Rgb, Ghost(n): Ghost<int>)
    requires
        old(out)@.len() == 3 * n,
    ensures
        final(out)@.len() == 3 * (n + 1),
        forall|q: int| 0 <= q < n ==> rgb_at(final(out)@, q) == rgb_at(old(out)@, q),
        rgb_at(final(out)@, n) == p,
{
    out.push(p.r);
    out.push(p.g);
    out.push(p.b);
}

/// Splits a quantized RGBA image into the tri-colour preview, the red-ink mask
/// and the black-ink mask, all RGB and of the input's size.
pub fn split_planes(q: &RgbaGrid) -> (r: Planes)
    requires
        q.wf(),
    ensures
        r.combined.wf() && r.red_only.wf() && r.black_only.wf(),
        r.combined.width == q.width && r.combined.height == q.height,
        r.red_only.width == q.width && r.red_only.height == q.height,
        r.black_only.width == q.width && r.black_only.height == q.height,
        forall|p: int|
            0 <= p < q.width * q.height ==> #[trigger] rgb_at(r.combined.data@, p) == rgba_at(
                q.data@,
                p,
            ),
        forall|p: int|
            0 <= p < q.width * q.height ==> #[trigger] rgb_at(r.red_only.data@, p) == red_plane(
                rgba_at(q.data@, p),
            ),
        forall|p: int|
            0 <= p < q.width * q.height ==> #[trigger] rgb_at(r.black_only.data@, p)
                == black_plane(rgba_at(q.data@, p)),
{
    let len = q.data.len();
    let n = len / 4;
    proof {
        assert(n == q.width * q.height);
    }
    let mut combined: Vec<u8> = Vec::new();
    let mut red: Vec<u8> = Vec::new();
    let mut blk: Vec<u8> = Vec::new();
    let mut k: usize = 0;
    while k < n
        invariant
            k <= n,
            n == q.width * q.height,
            q.data@.len() == 4 * n,
            len == q.data@.len(),
            combined@.len() == 3 * k,
            red@.len() == 3 * k,
            blk@.len() == 3 * k,
            forall|p: int| 0 <= p < k ==> #[trigger] rgb_at(combined@, p) == rgba_at(q.data@, p),
            forall|p: int|
                0 <= p < k ==> #[trigger] rgb_at(red@, p) == red_plane(rgba_at(q.data@, p)),
            forall|p: int|
                0 <= p < k ==> #[trigger] rgb_at(blk@, p) == black_plane(rgba_at(q.data@, p)),
        decreases n - k,
    {
        let px = Rgb { r: q.data[4 * k], g: q.data[4 * k + 1], b: q.data[4 * k + 2] };
        push_rgb(&mut combined, px, Ghost(k as int));
        push_rgb(&mut red, red_ink(px), Ghost(k as int));
        push_rgb(&mut blk, black_ink(px), Ghost(k as int));
        k = k + 1;
    }
    Planes {
        combined: RgbGrid { width: q.width, height: q.height, data: combined },
        red_only: RgbGrid { width: q.width, height: q.height, data: red },
        black_only: RgbGrid { width: q.width, height: q.height, data: blk },
    }
}

/// The plane rules on the three palette colours: dark red is ink in both
/// masks, black is paper in the red mask and ink in the black mask, and white
/// is paper everywhere.
pub proof fn lemma_plane_table()
    ensures
        red_plane(dark_red()) == black() && black_plane(dark_red()) == black(),
        red_plane(black()) == white() && black_plane(black()) == black(),
        red_plane(white()) == white() && black_plane(white()) == white(),
{
}

/// Dithers an image against the black / white / dark-red palette and splits
/// the result into the preview, the red-ink mask and the black-ink mask.
pub fn dither_image(input: &RgbaGrid) -> (r: Planes)
    requires
        input.wf(),
    ensures
        r.combined.wf() && r.red_only.wf() && r.black_only.wf(),
        r.combined.width == input.width && r.combined.height == input.height,
        r.red_only.width == input.width && r.red_only.height == input.height,
        r.black_only.width == input.width && r.black_only.height == input.height,
        ({
            let picks = dither_picks(
                tri_color(),
                *input,
                full_window(input.width, input.height),
            );
            forall|p: int|
                0 <= p < input.width * input.height ==> {
                    let c = tri_color()[picks[p]];
                    &&& #[trigger] rgb_at(r.combined.data@, p) == c
                    &&& rgb_at(r.red_only.data@, p) == red_plane(c)
                    &&& rgb_at(r.black_only.data@, p) == black_plane(c)
                }
        }),
{
    let q = dither(input);
    let r = split_planes(&q);
    proof {
        let picks = dither_picks(tri_color(), *input, full_window(input.width, input.height));
        assert(renders(q.data@, tri_color(), picks));
        assert forall|p: int| 0 <= p < input.width * input.height implies {
            let c = tri_color()[picks[p]];
            &&& #[trigger] rgb_at(r.combined.data@, p) == c
            &&& rgb_at(r.red_only.data@, p) == red_plane(c)
            &&& rgb_at(r.black_only.data@, p) == black_plane(c)
        } by {
            assert(rgba_at(q.data@, p) == tri_color()[picks[p]]);
            assert(rgb_at(r.red_only.data@, p) == red_plane(rgba_at(q.data@, p)));
            assert(rgb_at(r.black_only.data@, p) == black_plane(rgba_at(q.data@, p)));
        }
    }
    r
}

} // verus!
