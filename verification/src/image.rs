//! RGBA images: decoding, flipping, copying and blending.
//!
//! An image is `width` x `height` pixels of four bytes (red, green, blue,
//! alpha), row by row from the top; pixel (x, y) is `pixels[y * width + x]`.

use vstd::prelude::*;

verus! {

/// An 8-bit RGBA image.
#[derive(Clone, Debug)]
pub struct Image {
    pub width: u32,
    pub height: u32,
    pub pixels: Vec<[u8; 4]>,
}

/// Why one image could not be copied into another.
#[derive(Clone, Copy, Debug, PartialEq, Eq, Structural)]
pub enum CopyError {
    /// The copied image does not fit at the given place.
    DimensionMismatch,
}

/// The image that `image::load_from_memory` decodes from `bytes`, guessing
/// the format from the first bytes, as width, height and RGBA pixels; `None`
/// where it fails.
pub uninterp spec fn decoded(bytes: Seq<u8>) -> Option<(u32, u32, Seq<[u8; 4]>)>;

/// The image that `image::load_from_memory_with_format` decodes from
/// `bytes` as a TGA file; `None` where it fails.
pub uninterp spec fn decoded_tga(bytes: Seq<u8>) -> Option<(u32, u32, Seq<[u8; 4]>)>;

/// The pixel that `image::imageops::overlay` puts where it alpha-blends pixel
/// `top`, neither fully transparent nor fully opaque, onto pixel `bottom`
/// (`Rgba::blend`).
pub uninterp spec fn blended(bottom: [u8; 4], top: [u8; 4]) -> [u8; 4];

/// Pixel `top` alpha-blended onto pixel `bottom`: a fully transparent top
/// pixel leaves the bottom one, a fully opaque one replaces it.
pub open spec fn blend_px(bottom: [u8; 4], top: [u8; 4]) -> [u8; 4] {
    if top[3] == 0 {
        bottom
    } else if top[3] == 255 {
        top
    } else {
        blended(bottom, top)
    }
}

/// The index of pixel (x, y) in an image `w` pixels wide.
pub open spec fn px(w: int, x: int, y: int) -> int {
    y * w + x
}

/// Pixel (x, y) lies inside a `w` x `h` image, and its index inside the
/// pixels; distinct pixels have distinct indices.
pub proof fn lemma_px_bounds(w: int, h: int, x: int, y: int)
    requires
        0 <= x < w,
        0 <= y < h,
    ensures
        0 <= px(w, x, y) < w * h,
        px(w, x, y) + 1 <= (y + 1) * w,
{
    assert(0 <= y * w + x < w * h) by (nonlinear_arith)
        requires
            0 <= x < w,
            0 <= y < h,
    ;
    assert(y * w + x + 1 <= (y + 1) * w) by (nonlinear_arith)
        requires
            0 <= x < w,
            0 <= y,
    ;
}

/// Distinct pixels have distinct indices.
pub proof fn lemma_px_injective(w: int, x1: int, y1: int, x2: int, y2: int)
    requires
        0 <= x1 < w,
        0 <= x2 < w,
        0 <= y1,
        0 <= y2,
        px(w, x1, y1) == px(w, x2, y2),
    ensures
        x1 == x2,
        y1 == y2,
{
    if y1 < y2 {
        assert(y1 * w + x1 < y2 * w + x2) by (nonlinear_arith)
            requires
                0 <= x1 < w,
                0 <= x2,
                y1 < y2,
        ;
    } else if y2 < y1 {
        assert(y2 * w + x2 < y1 * w + x1) by (nonlinear_arith)
            requires
                0 <= x2 < w,
                0 <= x1,
                y2 < y1,
        ;
    }
}

impl Image {
    /// The pixels are exactly `width` x `height`.
    pub open spec fn valid(&self) -> bool {
        self.pixels@.len() == self.width * self.height
    }

    /// Pixel (x, y).
    pub open spec fn pixel(&self, x: int, y: int) -> [u8; 4] {
        self.pixels@[px(self.width as int, x, y)]
    }

    /// A `width` x `height` image of transparent black pixels.
    pub fn new(width: u32, height: u32) -> (img: Image)
        requires
            width * height <= usize::MAX,
        ensures
            img.valid(),
            img.width == width,
            img.height == height,
            forall|k: int| 0 <= k < img.pixels@.len() ==> #[trigger] img.pixels@[k] == [0u8, 0u8, 0u8, 0u8],
    {
        let n: usize = (width as usize) * (height as usize);
        let mut pixels: Vec<[u8; 4]> = Vec::new();
        while pixels.len() < n
            invariant
                pixels@.len() <= n,
                forall|k: int| 0 <= k < pixels@.len() ==> #[trigger] pixels@[k] == [0u8, 0u8, 0u8, 0u8],
            decreases n - pixels@.len(),
        {
            pixels.push([0u8, 0u8, 0u8, 0u8]);
        }
        Image { width, height, pixels }
    }

    /// The image upside down: pixel (x, y) of the result is pixel
    /// (x, height - 1 - y) of `self`.
    pub fn flip_vertical(&self) -> (out: Image)
        requires
            self.valid(),
        ensures
            out.valid(),
            out.width == self.width,
            out.height == self.height,
            forall|x: int, y: int| 0 <= x < self.width && 0 <= y < self.height ==> #[trigger] out.pixel(x, y) == self.pixel(
                x,
                self.height - 1 - y,
            ),
    {
        let w = self.width as usize;
        let h = self.height as usize;
        let mut out: Vec<[u8; 4]> = Vec::new();
        if w == 0 || h == 0 {
            proof {
                assert(self.width * self.height == 0) by (nonlinear_arith)
                    requires
                        self.width == 0 || self.height == 0,
                ;
            }
            return Image { width: self.width, height: self.height, pixels: out };
        }
        let n = self.pixels.len();
        proof {
            assert((h - 1) * w == w * h - w) by (nonlinear_arith);
        }
        let mut src_base: usize = n - w;
        let mut row: usize = 0;
        while row < h
            invariant
                w == self.width,
                h == self.height,
                n == self.pixels@.len(),
                n == w * h,
                w > 0,
                0 <= row <= h,
                out@.len() == row * w,
                row < h ==> src_base == (h - 1 - row) * w,
                forall|x: int, y: int| 0 <= x < w && 0 <= y < row ==> #[trigger] out@[px(w as int, x, y)] == self.pixel(
                    x,
                    h - 1 - y,
                ),
            decreases h - row,
        {
            let mut col: usize = 0;
            while col < w
                invariant
                    w == self.width,
                    h == self.height,
                    n == self.pixels@.len(),
                    n == w * h,
                    0 <= row < h,
                    0 <= col <= w,
                    out@.len() == row * w + col,
                    src_base == (h - 1 - row) * w,
                    forall|x: int, y: int| 0 <= x < w && 0 <= y < row ==> #[trigger] out@[px(w as int, x, y)] == self.pixel(
                        x,
                        h - 1 - y,
                    ),
                    forall|x: int| 0 <= x < col ==> #[trigger] out@[px(w as int, x, row as int)] == self.pixel(
                        x,
                        h - 1 - row,
                    ),
                decreases w - col,
            {
                proof {
                    lemma_px_bounds(w as int, h as int, col as int, (h - 1 - row) as int);
                }
                let p = self.pixels[src_base + col];
                let ghost before = out@;
                out.push(p);
                proof {
                    assert(w * row == row * w) by (nonlinear_arith);
                    assert forall|x: int, y: int| 0 <= x < w && 0 <= y < row implies #[trigger] out@[px(w as int, x, y)]
                        == self.pixel(x, h - 1 - y) by {
                        lemma_px_bounds(w as int, row as int, x, y);
                        assert(out@[px(w as int, x, y)] == before[px(w as int, x, y)]);
                    }
                    assert forall|x: int| 0 <= x < col + 1 implies #[trigger] out@[px(w as int, x, row as int)] == self.pixel(
                        x,
                        h - 1 - row,
                    ) by {
                        if x < col {
                            assert(out@[px(w as int, x, row as int)] == before[px(w as int, x, row as int)]);
                        }
                    }
                }
                col = col + 1;
            }
            proof {
                assert(row * w + w == (row + 1) * w) by (nonlinear_arith);
                if row + 1 < h {
                    assert((h - 1 - row) * w - w == (h - 1 - (row + 1)) * w) by (nonlinear_arith);
                    assert((h - 1 - row) * w >= w) by (nonlinear_arith)
                        requires
                            row + 1 < h,
                            w > 0,
                    ;
                }
            }
            if row + 1 < h {
                src_base = src_base - w;
            }
            row = row + 1;
        }
        proof {
            assert(h * w == w * h) by (nonlinear_arith);
        }
        Image { width: self.width, height: self.height, pixels: out }
    }

    /// Copies `other` into `self` with its top left corner at (x, y), as
    /// `image::GenericImage::copy_from` does; fails, leaving `self` as it was,
    /// where `other` does not fit there.
    pub fn copy_from(&mut self, other: &Image, x: u32, y: u32) -> (r: Result<(), CopyError>)
        requires
            old(self).valid(),
            other.valid(),
        ensures
            r is Err <==> (old(self).width < other.width + x || old(self).height < other.height + y),
            r is Err ==> *final(self) == *old(self),
            final(self).valid(),
            final(self).width == old(self).width,
            final(self).height == old(self).height,
            r is Ok ==> forall|cx: int, cy: int| 0 <= cx < old(self).width && 0 <= cy < old(self).height ==> #[trigger] final(self).pixel(cx, cy) == if x <= cx < x + other.width && y <= cy < y + other.height {
                other.pixel(cx - x, cy - y)
            } else {
                old(self).pixel(cx, cy)
            },
    {
        if (self.width as u64) < (other.width as u64) + (x as u64) || (self.height as u64) < (other.height as u64) + (y as u64) {
            return Err(CopyError::DimensionMismatch);
        }
        let ghost old_px = self.pixels@;
        let slen = self.pixels.len();
        let olen = other.pixels.len();
        let w = self.width as usize;
        let hgt = self.height as usize;
        let ow = other.width as usize;
        let oh = other.height as usize;
        let xs = x as usize;
        let ys = y as usize;
        let mut k: usize = 0;
        let mut dst_base: usize = 0;
        let mut src_base: usize = 0;
        proof {
            assert(slen == w * hgt);
            assert(olen == ow * oh);
            if oh > 0 {
                assert(ys * w <= w * hgt) by (nonlinear_arith)
                    requires
                        ys <= hgt,
                ;
            }
        }
        if oh > 0 {
            dst_base = ys * w;
        }
        while k < oh
            invariant
                w == self.width,
                hgt == self.height,
                ow == other.width,
                oh == other.height,
                xs == x,
                ys == y,
                w >= ow + xs,
                hgt >= oh + ys,
                self.pixels@.len() == old_px.len(),
                old_px.len() == w * hgt,
                other.pixels@.len() == ow * oh,
                slen == w * hgt,
                olen == ow * oh,
                0 <= k <= oh,
                k < oh ==> dst_base == (ys + k) * w,
                k < oh ==> src_base == k * ow,
                forall|cx: int, cy: int| 0 <= cx < w && 0 <= cy < hgt ==> #[trigger] self.pixels@[px(w as int, cx, cy)] == if xs <= cx < xs + ow && ys <= cy < ys + k {
                    other.pixel(cx - xs, cy - ys)
                } else {
                    old_px[px(w as int, cx, cy)]
                },
            decreases oh - k,
        {
            let mut i: usize = 0;
            while i < ow
                invariant
                    w == self.width,
                    hgt == self.height,
                    ow == other.width,
                    oh == other.height,
                    xs == x,
                    ys == y,
                    w >= ow + xs,
                    hgt >= oh + ys,
                    self.pixels@.len() == old_px.len(),
                    old_px.len() == w * hgt,
                    other.pixels@.len() == ow * oh,
                    slen == w * hgt,
                    olen == ow * oh,
                    0 <= k < oh,
                    0 <= i <= ow,
                    dst_base == (ys + k) * w,
                    src_base == k * ow,
                    forall|cx: int, cy: int| 0 <= cx < w && 0 <= cy < hgt ==> #[trigger] self.pixels@[px(w as int, cx, cy)] == if xs <= cx < xs + ow && ys <= cy < ys + k {
                        other.pixel(cx - xs, cy - ys)
                    } else if xs <= cx < xs + i && cy == ys + k {
                        other.pixel(cx - xs, cy - ys)
                    } else {
                        old_px[px(w as int, cx, cy)]
                    },
                decreases ow - i,
            {
                proof {
                    lemma_px_bounds(w as int, hgt as int, (xs + i) as int, (ys + k) as int);
                    lemma_px_bounds(ow as int, oh as int, i as int, k as int);
                }
                let p = other.pixels[src_base + i];
                let ghost before = self.pixels@;
                self.pixels.set(dst_base + xs + i, p);
                proof {
                    assert forall|cx: int, cy: int| 0 <= cx < w && 0 <= cy < hgt implies #[trigger] self.pixels@[px(w as int, cx, cy)] == if xs <= cx < xs + ow && ys <= cy < ys + k {
                        other.pixel(cx - xs, cy - ys)
                    } else if xs <= cx < xs + i + 1 && cy == ys + k {
                        other.pixel(cx - xs, cy - ys)
                    } else {
                        old_px[px(w as int, cx, cy)]
                    } by {
                        lemma_px_bounds(w as int, hgt as int, cx, cy);
                        if px(w as int, cx, cy) == px(w as int, (xs + i) as int, (ys + k) as int) {
                            lemma_px_injective(w as int, cx, cy, (xs + i) as int, (ys + k) as int);
                        } else {
                            assert(self.pixels@[px(w as int, cx, cy)] == before[px(w as int, cx, cy)]);
                        }
                    }
                }
                i = i + 1;
            }
            proof {
                if k + 1 < oh {
                    assert((ys + k) * w + w == (ys + k + 1) * w) by (nonlinear_arith);
                    assert(k * ow + ow == (k + 1) * ow) by (nonlinear_arith);
                    assert((ys + k + 1) * w <= w * hgt) by (nonlinear_arith)
                        requires
                            ys + k + 1 < hgt,
                    ;
                    assert((k + 1) * ow <= ow * oh) by (nonlinear_arith)
                        requires
                            k + 1 < oh,
                    ;
                }
            }
            if k + 1 < oh {
                dst_base = dst_base + w;
                src_base = src_base + ow;
            }
            k = k + 1;
        }
        Ok(())
    }

    /// Draws `top` over the image, their top left corners together: each
    /// pixel that both cover becomes the blend of the top pixel onto it, the
    /// others stay.
    pub fn overlay(&mut self, top: &Image)
        requires
            old(self).valid(),
            top.valid(),
        ensures
            final(self).valid(),
            final(self).width == old(self).width,
            final(self).height == old(self).height,
            forall|x: int, y: int| 0 <= x < old(self).width && 0 <= y < old(self).height ==> #[trigger] final(self).pixel(x, y) == if x < top.width && y < top.height {
                blend_px(old(self).pixel(x, y), top.pixel(x, y))
            } else {
                old(self).pixel(x, y)
            },
    {
        overlay_at_origin(self, top);
    }
}

/// Calls `image::imageops::overlay(bottom, top, 0, 0)`. Claims what the
/// source of image 0.24.9 shows: the bottom image keeps its size; each pixel
/// that both images cover becomes the top pixel blended onto it (`Rgba::blend`
/// returns early for a fully transparent top pixel and copies a fully opaque
/// one), and the other pixels stay.
#[verifier::external_body]
fn overlay_at_origin(bottom: &mut Image, top: &Image)
    requires
        old(bottom).valid(),
        top.valid(),
    ensures
        final(bottom).width == old(bottom).width,
        final(bottom).height == old(bottom).height,
        final(bottom).pixels@.len() == old(bottom).pixels@.len(),
        forall|x: int, y: int| 0 <= x < old(bottom).width && 0 <= y < old(bottom).height
            ==> #[trigger] final(bottom).pixels@[px(old(bottom).width as int, x, y)] == if x < top.width && y < top.height {
                if top.pixels@[px(top.width as int, x, y)][3] == 0 {
                    old(bottom).pixels@[px(old(bottom).width as int, x, y)]
                } else if top.pixels@[px(top.width as int, x, y)][3] == 255 {
                    top.pixels@[px(top.width as int, x, y)]
                } else {
                    blended(old(bottom).pixels@[px(old(bottom).width as int, x, y)], top.pixels@[px(top.width as int, x, y)])
                }
            } else {
                old(bottom).pixels@[px(old(bottom).width as int, x, y)]
            },
{
    let mut b = image::RgbaImage::from_raw(bottom.width, bottom.height, bottom.pixels.iter().flatten().copied().collect()).unwrap();
    let t = image::RgbaImage::from_raw(top.width, top.height, top.pixels.iter().flatten().copied().collect()).unwrap();
    image::imageops::overlay(&mut b, &t, 0, 0);
    bottom.pixels = b.pixels().map(|p| p.0).collect();
}

/// Calls `image::load_from_memory`, converts the decoded image to 8-bit RGBA
/// and reads its pixel buffer, row by row. Claims that the result is the named `decoded` of
/// the bytes, and that an image has width x height pixels.
#[verifier::external_body]
fn decode_guessed(bytes: &[u8]) -> (r: Option<Image>)
    ensures
        match r {
            Some(img) => decoded(bytes@) == Some((img.width, img.height, img.pixels@)),
            None => decoded(bytes@) is None,
        },
        r matches Some(img) ==> img.valid(),
{
    match image::load_from_memory(bytes) {
        Ok(d) => {
            let b = d.to_rgba8();
            Some(Image { width: b.width(), height: b.height(), pixels: b.pixels().map(|p| p.0).collect() })
        },
        Err(_) => None,
    }
}

/// Calls `image::load_from_memory_with_format` for TGA, converts the decoded
/// image to 8-bit RGBA and reads its pixel buffer, row by row. Claims that the result is the
/// named `decoded_tga` of the bytes, and that an image has width x height
/// pixels.
#[verifier::external_body]
fn decode_tga(bytes: &[u8]) -> (r: Option<Image>)
    ensures
        match r {
            Some(img) => decoded_tga(bytes@) == Some((img.width, img.height, img.pixels@)),
            None => decoded_tga(bytes@) is None,
        },
        r matches Some(img) ==> img.valid(),
{
    match image::load_from_memory_with_format(bytes, image::ImageFormat::Tga) {
        Ok(d) => {
            let b = d.to_rgba8();
            Some(Image { width: b.width(), height: b.height(), pixels: b.pixels().map(|p| p.0).collect() })
        },
        Err(_) => None,
    }
}

/// Decodes an image file: first guessing its format, then as TGA; `None`
/// where both fail. The decoded image is flipped upside down, as textures
/// are stored bottom row first.
pub fn decode_texture(bytes: &[u8]) -> (r: Option<Image>)
    ensures
        match decoded(bytes@) {
            Some(d) => r matches Some(img) && img.width == d.0 && img.height == d.1 && flipped_of(img, d.2)
                && img.pixels@ == flip_pixels(d.0 as int, d.1 as int, d.2),
            None => match decoded_tga(bytes@) {
                Some(d) => r matches Some(img) && img.width == d.0 && img.height == d.1 && flipped_of(img, d.2)
                    && img.pixels@ == flip_pixels(d.0 as int, d.1 as int, d.2),
                None => r is None,
            },
        },
        r matches Some(img) ==> img.valid(),
{
    let d = match decode_guessed(bytes) {
        Some(img) => Some(img),
        None => decode_tga(bytes),
    };
    match d {
        Some(img) => {
            let f = img.flip_vertical();
            proof {
                lemma_flipped_pixels(f, img.pixels@);
            }
            Some(f)
        },
        None => None,
    }
}

/// `img` is the image with pixels `src` upside down.
pub open spec fn flipped_of(img: Image, src: Seq<[u8; 4]>) -> bool {
    forall|x: int, y: int| 0 <= x < img.width && 0 <= y < img.height ==> #[trigger] img.pixel(x, y) == src[px(
        img.width as int,
        x,
        img.height - 1 - y,
    )]
}

/// The pixels of a `w` x `h` image with pixels `src`, upside down.
pub open spec fn flip_pixels(w: int, h: int, src: Seq<[u8; 4]>) -> Seq<[u8; 4]> {
    Seq::new((w * h) as nat, |k: int| src[px(w, k % w, h - 1 - k / w)])
}

/// An image whose pixels are those of `src` upside down has the pixels
/// `flip_pixels` gives.
pub proof fn lemma_flipped_pixels(img: Image, src: Seq<[u8; 4]>)
    requires
        img.valid(),
        flipped_of(img, src),
    ensures
        img.pixels@ == flip_pixels(img.width as int, img.height as int, src),
{
    let w = img.width as int;
    let h = img.height as int;
    assert forall|k: int| 0 <= k < w * h implies #[trigger] img.pixels@[k] == flip_pixels(w, h, src)[k] by {
        assert(w > 0) by (nonlinear_arith)
            requires
                0 <= k < w * h,
                w >= 0,
                h >= 0,
        ;
        vstd::arithmetic::div_mod::lemma_fundamental_div_mod(k, w);
        vstd::arithmetic::div_mod::lemma_mod_bound(k, w);
        vstd::arithmetic::div_mod::lemma_div_pos_is_pos(k, w);
        vstd::arithmetic::div_mod::lemma_multiply_divide_lt(k, w, h);
        let x = k % w;
        let y = k / w;
        assert(k == px(w, x, y)) by (nonlinear_arith)
            requires
                k == w * (k / w) + k % w,
                x == k % w,
                y == k / w,
        ;
        assert(img.pixel(x, y) == src[px(w, x, h - 1 - y)]);
    }
    assert(img.pixels@ =~= flip_pixels(w, h, src));
}

/// The one-pixel image of the opaque colour `c` (red, green, blue).
pub fn one_pixel_image(c: [u8; 3]) -> (img: Image)
    ensures
        img.valid(),
        img.width == 1,
        img.height == 1,
        img.pixels@ == seq![[c[0], c[1], c[2], 255u8]],
{
    let mut pixels: Vec<[u8; 4]> = Vec::new();
    pixels.push([c[0], c[1], c[2], 255u8]);
    let img = Image { width: 1, height: 1, pixels };
    assert(img.width * img.height == 1) by (nonlinear_arith)
        requires
            img.width == 1,
            img.height == 1,
    ;
    assert(img.pixels@ =~= seq![[c[0], c[1], c[2], 255u8]]);
    img
}

/// Flipping an image twice gives it back.
pub proof fn lemma_flip_twice(img: Image, once: Image, twice: Image)
    requires
        img.valid(),
        once.width == img.width && once.height == img.height,
        twice.width == img.width && twice.height == img.height,
        forall|x: int, y: int| 0 <= x < img.width && 0 <= y < img.height ==> #[trigger] once.pixel(x, y) == img.pixel(
            x,
            img.height - 1 - y,
        ),
        forall|x: int, y: int| 0 <= x < once.width && 0 <= y < once.height ==> #[trigger] twice.pixel(x, y) == once.pixel(
            x,
            once.height - 1 - y,
        ),
    ensures
        forall|x: int, y: int| 0 <= x < img.width && 0 <= y < img.height ==> #[trigger] twice.pixel(x, y) == img.pixel(x, y),
{
    assert forall|x: int, y: int| 0 <= x < img.width && 0 <= y < img.height implies #[trigger] twice.pixel(x, y) == img.pixel(x, y) by {
        assert(twice.pixel(x, y) == once.pixel(x, img.height - 1 - y));
        assert(once.pixel(x, img.height - 1 - y) == img.pixel(x, img.height - 1 - (img.height - 1 - y)));
    }
}

} // verus!
