use vstd::prelude::*;

verus! {

/// A single-channel 8-bit image borrowed from a byte buffer, stored row by row.
pub struct Image<'a> {
    pub data: &'a [u8],
    pub width: u32,
    pub height: u32,
}

/// Index of pixel `(x, y)` in a row-major buffer of the given width.
pub open spec fn pixel_index(width: int, x: int, y: int) -> int {
    y * width + x
}

impl<'a> Image<'a> {
    pub fn new(data: &'a [u8], width: u32, height: u32) -> (img: Self)
        ensures
            img.data@ == data@,
            img.width == width,
            img.height == height,
    {
        Image { data, width, height }
    }

    /// The byte at column `x` of row `y`.
    pub fn get_pixel(&self, x: u32, y: u32) -> (p: u8)
        requires
            pixel_index(self.width as int, x as int, y as int) < self.data@.len(),
            pixel_index(self.width as int, x as int, y as int) <= u32::MAX,
        ensures
            p == self.data@[pixel_index(self.width as int, x as int, y as int)],
    {
        proof {
            assert(0 <= y * self.width) by (nonlinear_arith);
        }
        let i = y * self.width + x;
        self.data[i as usize]
    }
}

} // verus!

verus! {

/// One RGBA pixel, eight bits per channel.
#[derive(Clone, Copy, PartialEq, Eq, Structural, Debug)]
pub struct Rgba {
    pub r: u8,
    pub g: u8,
    pub b: u8,
    pub a: u8,
}

/// The pixel with all four channels zero.
pub open spec fn clear_pixel() -> Rgba {
    Rgba { r: 0, g: 0, b: 0, a: 0 }
}

/// An RGBA image stored row by row.
pub struct RgbaBuffer {
    pub width: u32,
    pub height: u32,
    pub pixels: Vec<Rgba>,
}

proof fn lemma_pixel_index_bounds(w: int, h: int, x: int, y: int)
    requires
        0 <= x < w,
        0 <= y < h,
    ensures
        0 <= y * w + x < w * h,
{
    assert(0 <= y * w + x < w * h) by (nonlinear_arith)
        requires
            0 <= x < w,
            0 <= y < h,
    ;
}

proof fn lemma_pixel_index_injective(w: int, x1: int, y1: int, x2: int, y2: int)
    requires
        0 <= x1 < w,
        0 <= x2 < w,
        0 <= y1,
        0 <= y2,
        y1 * w + x1 == y2 * w + x2,
    ensures
        x1 == x2 && y1 == y2,
{
    if y1 < y2 {
        assert(y1 * w + x1 < y2 * w + x2) by (nonlinear_arith)
            requires
                y1 < y2,
                0 <= x1 < w,
                0 <= x2,
        ;
    } else if y2 < y1 {
        assert(y2 * w + x2 < y1 * w + x1) by (nonlinear_arith)
            requires
                y2 < y1,
                0 <= x2 < w,
                0 <= x1,
        ;
    }
}

impl RgbaBuffer {
    /// One pixel per column and row.
    pub open spec fn wf(&self) -> bool {
        self.pixels.len() == self.width * self.height
    }

    pub open spec fn in_bounds(&self, x: int, y: int) -> bool {
        0 <= x < self.width && 0 <= y < self.height
    }

    pub open spec fn px(&self, x: int, y: int) -> Rgba {
        self.pixels@[pixel_index(self.width as int, x, y)]
    }

    /// A `width` by `height` image with every pixel clear.
    pub fn new(width: u32, height: u32) -> (img: Self)
        requires
            width * height <= usize::MAX,
        ensures
            img.wf(),
            img.width == width,
            img.height == height,
            forall|x: int, y: int| img.in_bounds(x, y) ==> #[trigger] img.px(x, y) == clear_pixel(),
    {
        let n = width as usize * height as usize;
        let mut pixels: Vec<Rgba> = Vec::new();
        while pixels.len() < n
            invariant
                pixels.len() <= n,
                forall|i: int| 0 <= i < pixels.len() ==> pixels@[i] == clear_pixel(),
            decreases n - pixels.len(),
        {
            pixels.push(Rgba { r: 0, g: 0, b: 0, a: 0 });
        }
        let img = RgbaBuffer { width, height, pixels };
        proof {
            assert forall|x: int, y: int| img.in_bounds(x, y) implies #[trigger] img.px(x, y) == clear_pixel() by {
                lemma_pixel_index_bounds(width as int, height as int, x, y);
            }
        }
        img
    }

    /// Reads a `width` by `height` image from bytes in RGBA order, row by row;
    /// `None` when the bytes are too few for that many pixels. Bytes past the
    /// last pixel are ignored.
    pub fn from_raw(width: u32, height: u32, data: &[u8]) -> (res: Option<Self>)
        ensures
            res is Some <==> width * height * 4 <= data@.len(),
            res matches Some(img) ==> {
                &&& img.wf()
                &&& img.width == width
                &&& img.height == height
                &&& forall|x: int, y: int| #[trigger] img.in_bounds(x, y) ==> img.px(x, y) == bytes_pixel(data@, width as int, x, y)
            },
    {
        proof {
            assert(width as u128 * height as u128 <= 0xffff_ffff * 0xffff_ffff) by (nonlinear_arith)
                requires
                    width <= 0xffff_ffff,
                    height <= 0xffff_ffff,
            ;
        }
        let needed: u128 = width as u128 * height as u128 * 4;
        if needed > data.len() as u128 {
            return None;
        }
        let n = width as usize * height as usize;
        let len = data.len();
        let mut pixels: Vec<Rgba> = Vec::new();
        let mut i: usize = 0;
        while i < n
            invariant
                n == width * height,
                n * 4 <= data@.len(),
                len == data@.len(),
                i <= n,
                pixels.len() == i,
                forall|k: int| 0 <= k < i ==> #[trigger] pixels@[k] == bytes_at(data@, k),
            decreases n - i,
        {
            assert(4 * i + 3 < data@.len());
            let p = Rgba { r: data[4 * i], g: data[4 * i + 1], b: data[4 * i + 2], a: data[4 * i + 3] };
            pixels.push(p);
            i = i + 1;
        }
        let img = RgbaBuffer { width, height, pixels };
        proof {
            assert forall|x: int, y: int| #[trigger] img.in_bounds(x, y) implies img.px(x, y) == bytes_pixel(data@, width as int, x, y) by {
                lemma_pixel_index_bounds(width as int, height as int, x, y);
            }
        }
        Some(img)
    }

    pub fn dimensions(&self) -> (res: (u32, u32))
        ensures
            res == (self.width, self.height),
    {
        (self.width, self.height)
    }

    pub fn get_pixel(&self, x: u32, y: u32) -> (p: Rgba)
        requires
            self.wf(),
            self.in_bounds(x as int, y as int),
        ensures
            p == self.px(x as int, y as int),
    {
        proof {
            lemma_pixel_index_bounds(self.width as int, self.height as int, x as int, y as int);
        }
        self.pixels[y as usize * self.width as usize + x as usize]
    }

    pub fn put_pixel(&mut self, x: u32, y: u32, p: Rgba)
        requires
            old(self).wf(),
            old(self).in_bounds(x as int, y as int),
        ensures
            final(self).wf(),
            final(self).width == old(self).width,
            final(self).height == old(self).height,
            forall|xx: int, yy: int|
                #[trigger] final(self).in_bounds(xx, yy) ==> final(self).px(xx, yy) == if xx == x && yy == y {
                    p
                } else {
                    old(self).px(xx, yy)
                },
    {
        proof {
            lemma_pixel_index_bounds(self.width as int, self.height as int, x as int, y as int);
        }
        let i = y as usize * self.width as usize + x as usize;
        self.pixels.set(i, p);
        proof {
            assert forall|xx: int, yy: int| #[trigger] self.in_bounds(xx, yy) implies self.px(xx, yy) == if xx == x && yy == y {
                p
            } else {
                old(self).px(xx, yy)
            } by {
                lemma_pixel_index_bounds(self.width as int, self.height as int, xx, yy);
                if !(xx == x && yy == y) {
                    if pixel_index(self.width as int, xx, yy) == i {
                        lemma_pixel_index_injective(self.width as int, xx, yy, x as int, y as int);
                    }
                }
            }
        }
    }

    /// Copies `src` into this image with its top-left corner at `(x, y)`;
    /// the rest of the image is left as it was.
    pub fn copy_from(&mut self, src: &RgbaBuffer, x: u32, y: u32)
        requires
            old(self).wf(),
            src.wf(),
            x + src.width <= old(self).width,
            y + src.height <= old(self).height,
        ensures
            final(self).wf(),
            final(self).width == old(self).width,
            final(self).height == old(self).height,
            forall|xx: int, yy: int|
                #[trigger] final(self).in_bounds(xx, yy) ==> final(self).px(xx, yy) == if x <= xx < x
                    + src.width && y <= yy < y + src.height {
                    src.px(xx - x, yy - y)
                } else {
                    old(self).px(xx, yy)
                },
    {
        let ghost orig = *self;
        let mut k: u32 = 0;
        while k < src.height
            invariant
                self.wf(),
                src.wf(),
                orig.wf(),
                self.width == orig.width,
                self.height == orig.height,
                x + src.width <= self.width,
                y + src.height <= self.height,
                k <= src.height,
                forall|xx: int, yy: int|
                    #[trigger] self.in_bounds(xx, yy) ==> self.px(xx, yy) == if x <= xx < x + src.width && y
                        <= yy < y + k {
                        src.px(xx - x, yy - y)
                    } else {
                        orig.px(xx, yy)
                    },
            decreases src.height - k,
        {
            let mut i: u32 = 0;
            while i < src.width
                invariant
                    self.wf(),
                    src.wf(),
                    orig.wf(),
                    self.width == orig.width,
                    self.height == orig.height,
                    x + src.width <= self.width,
                    y + src.height <= self.height,
                    k < src.height,
                    i <= src.width,
                    forall|xx: int, yy: int|
                        #[trigger] self.in_bounds(xx, yy) ==> self.px(xx, yy) == if (x <= xx < x + src.width
                            && y <= yy < y + k) || (x <= xx < x + i && yy == y + k) {
                            src.px(xx - x, yy - y)
                        } else {
                            orig.px(xx, yy)
                        },
                decreases src.width - i,
            {
                let p = src.get_pixel(i, k);
                let ghost prev = *self;
                self.put_pixel(i + x, k + y, p);
                proof {
                    assert forall|xx: int, yy: int| #[trigger] self.in_bounds(xx, yy) implies self.px(xx, yy) == if (x <= xx < x + src.width
                            && y <= yy < y + k) || (x <= xx < x + i + 1 && yy == y + k) {
                            src.px(xx - x, yy - y)
                        } else {
                            orig.px(xx, yy)
                        } by {
                        assert(prev.in_bounds(xx, yy));
                    }
                }
                i = i + 1;
            }
            k = k + 1;
        }
    }

    /// The image's bytes in RGBA order, row by row.
    pub fn as_raw(&self) -> (bytes: Vec<u8>)
        requires
            self.wf(),
        ensures
            bytes.len() == self.pixels.len() * 4,
            forall|k: int| 0 <= k < self.pixels.len() ==> bytes_at(bytes@, k) == #[trigger] self.pixels@[k],
    {
        let mut bytes: Vec<u8> = Vec::new();
        let mut i: usize = 0;
        while i < self.pixels.len()
            invariant
                i <= self.pixels.len(),
                bytes.len() == i * 4,
                forall|k: int| 0 <= k < i ==> bytes_at(bytes@, k) == #[trigger] self.pixels@[k],
            decreases self.pixels.len() - i,
        {
            let p = self.pixels[i];
            let ghost before = bytes@;
            bytes.push(p.r);
            bytes.push(p.g);
            bytes.push(p.b);
            bytes.push(p.a);
            proof {
                assert forall|k: int| 0 <= k < i + 1 implies bytes_at(bytes@, k) == #[trigger] self.pixels@[k] by {
                    if k < i {
                        assert(bytes_at(before, k) == self.pixels@[k]);
                        assert(bytes@[4 * k] == before[4 * k]);
                        assert(bytes@[4 * k + 1] == before[4 * k + 1]);
                        assert(bytes@[4 * k + 2] == before[4 * k + 2]);
                        assert(bytes@[4 * k + 3] == before[4 * k + 3]);
                    }
                }
            }
            i = i + 1;
        }
        bytes
    }
}

/// Pixel number `k` of a byte buffer in RGBA order.
pub open spec fn bytes_at(data: Seq<u8>, k: int) -> Rgba {
    Rgba { r: data[4 * k], g: data[4 * k + 1], b: data[4 * k + 2], a: data[4 * k + 3] }
}

/// Pixel `(x, y)` of a byte buffer in RGBA order with `w` pixels per row.
pub open spec fn bytes_pixel(data: Seq<u8>, w: int, x: int, y: int) -> Rgba {
    bytes_at(data, pixel_index(w, x, y))
}

/// What `image::load_from_memory` makes of the bytes of an image file,
/// converted with `to_rgba8` and taken apart with `into_raw`: the width, the
/// height and the RGBA bytes, row by row; nothing when the bytes are no image
/// the crate can decode.
pub uninterp spec fn decoded_rgba8(file: Seq<u8>) -> Option<(u32, u32, Seq<u8>)>;

/// `image::load_from_memory`, then `DynamicImage::to_rgba8` and
/// `ImageBuffer::into_raw`: the result is `decoded_rgba8` of the file's
/// bytes, and nothing more is claimed of it.
#[verifier::external_body]
fn decode_rgba8(file: &[u8]) -> (res: Option<(u32, u32, Vec<u8>)>)
    ensures
        match res {
            Some(d) => decoded_rgba8(file@) == Some((d.0, d.1, d.2@)),
            None => decoded_rgba8(file@) is None,
        },
{
    match image::load_from_memory(file) {
        Ok(img) => {
            let rgba = img.to_rgba8();
            let (w, h) = rgba.dimensions();
            Some((w, h, rgba.into_raw()))
        },
        Err(_) => None,
    }
}

/// `img` shows the decoded image `d`: same size, and each pixel taken from
/// the RGBA bytes, row by row.
pub open spec fn shows(img: RgbaBuffer, d: (u32, u32, Seq<u8>)) -> bool {
    &&& img.wf()
    &&& img.width == d.0
    &&& img.height == d.1
    &&& forall|x: int, y: int| #[trigger] img.in_bounds(x, y) ==> img.px(x, y) == bytes_pixel(d.2, d.0 as int, x, y)
}

/// A decoded image worth showing: at least one pixel each way, and bytes
/// for all its pixels.
pub open spec fn usable(d: (u32, u32, Seq<u8>)) -> bool {
    d.0 > 0 && d.1 > 0 && d.0 * d.1 * 4 <= d.2.len()
}

/// The image to show for a decoding result: nothing when decoding failed or
/// the image is empty (or its bytes fall short of its size), else its pixels.
pub fn image_from_decoded(decoded: Option<(u32, u32, Vec<u8>)>) -> (res: Option<RgbaBuffer>)
    ensures
        match decoded {
            Some(d) => {
                &&& res is Some <==> usable((d.0, d.1, d.2@))
                &&& res matches Some(img) ==> shows(img, (d.0, d.1, d.2@))
            },
            None => res is None,
        },
{
    match decoded {
        Some((w, h, raw)) => {
            if w == 0 || h == 0 {
                None
            } else {
                RgbaBuffer::from_raw(w, h, raw.as_slice())
            }
        },
        None => None,
    }
}

/// Decodes the bytes of an image file (PNG, JPEG, BMP, GIF, TGA or WebP) into
/// RGBA pixels; nothing when they are no such image or it is empty.
pub fn decode_image(file: &[u8]) -> (res: Option<RgbaBuffer>)
    ensures
        match decoded_rgba8(file@) {
            Some(d) => {
                &&& res is Some <==> usable(d)
                &&& res matches Some(img) ==> shows(img, d)
            },
            None => res is None,
        },
{
    image_from_decoded(decode_rgba8(file))
}


} // verus!
