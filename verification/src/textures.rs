use vstd::prelude::*;
use vstd::arithmetic::power2::{pow2, lemma_pow2_unfold, lemma_pow2_strictly_increases};
use crate::pixels::{Rgba, RgbaBuffer, clear_pixel, bytes_pixel};

verus! {

/// A texture: the atlas that holds it, and its slot in that atlas.
#[derive(PartialEq, Eq, Structural, Clone, Copy, Debug)]
pub struct Texture(pub u32, pub u32);

impl Texture {
    /// Plain white.
    pub fn white() -> (t: Self)
        ensures
            t == Texture(0, 0),
    {
        Texture(0, 0)
    }

    /// The magenta and black checkerboard shown where a texture is missing.
    pub fn no_texture() -> (t: Self)
        ensures
            t == Texture(0, 1),
    {
        Texture(0, 1)
    }

    /// A filled disc.
    pub fn circle() -> (t: Self)
        ensures
            t == Texture(1, 0),
    {
        Texture(1, 0)
    }

    /// A ring: the disc without its inner half radius.
    pub fn hcircle() -> (t: Self)
        ensures
            t == Texture(1, 1),
    {
        Texture(1, 1)
    }
}

impl Default for Texture {
    fn default() -> (t: Self)
        ensures
            t == Texture(0, 0),
    {
        Texture::white()
    }
}

/// Pixel formats an atlas image can be built in: eight-bit RGBA.
#[derive(PartialEq, Eq, Structural, Clone, Copy, Debug)]
pub enum AtlasFormat {
    Rgba8Unorm,
    Rgba8UnormSrgb,
}

/// Bytes per texel of `format`, as the graphics API counts them
/// (`wgpu::TextureFormat::block_copy_size`, all aspects): four bytes for both
/// eight-bit RGBA formats.
#[verifier::external_body]
fn pixel_size(format: AtlasFormat) -> (size: Option<u32>)
    ensures
        size == Some(4u32),
{
    let f = match format {
        AtlasFormat::Rgba8Unorm => wgpu::TextureFormat::Rgba8Unorm,
        AtlasFormat::Rgba8UnormSrgb => wgpu::TextureFormat::Rgba8UnormSrgb,
    };
    f.block_copy_size(Some(wgpu::TextureAspect::All))
}

/// Transparent border added on every side of every texture in an atlas.
pub const PADDING: u32 = 2;

/// Side of a square atlas and the grid of equal cells laid over it.
#[derive(PartialEq, Eq, Structural, Clone, Copy, Debug)]
pub struct AtlasGrid {
    pub side: u32,
    pub cols: u32,
    pub rows: u32,
}

/// A square of `side` pixels holds at least `n` cells of `cw` by `ch`.
pub open spec fn grid_fits(n: int, cw: int, ch: int, side: int) -> bool {
    &&& side / cw > 0
    &&& side / ch > 0
    &&& (side / cw) * (side / ch) >= n
}

/// The smallest power-of-two side, from `2^k` on and at most `max_side`, whose
/// square holds `n` cells.
pub open spec fn first_fit(n: int, cw: int, ch: int, max_side: int, k: nat) -> Option<int>
    decreases 32 - k,
{
    if k >= 32 || pow2(k) > max_side {
        None
    } else if grid_fits(n, cw, ch, pow2(k) as int) {
        Some(pow2(k) as int)
    } else {
        first_fit(n, cw, ch, max_side, k + 1)
    }
}

proof fn lemma_first_fit_facts(n: int, cw: int, ch: int, max_side: int, k: nat)
    requires
        max_side <= u32::MAX,
    ensures
        first_fit(n, cw, ch, max_side, k) matches Some(s) ==> {
            &&& exists|e: nat| k <= e && s == #[trigger] pow2(e)
            &&& s <= max_side
            &&& grid_fits(n, cw, ch, s)
            &&& forall|e: nat| k <= e && #[trigger] pow2(e) < s ==> !grid_fits(n, cw, ch, pow2(e) as int)
        },
        first_fit(n, cw, ch, max_side, k) is None ==> forall|e: nat|
            k <= e && #[trigger] pow2(e) <= max_side ==> !grid_fits(n, cw, ch, pow2(e) as int),
    decreases 32 - k,
{
    if k >= 32 || pow2(k) > max_side {
        assert forall|e: nat| k <= e && #[trigger] pow2(e) <= max_side implies false by {
            if k < 32 {
                if k < e {
                    lemma_pow2_strictly_increases(k, e);
                }
            } else {
                vstd::arithmetic::power2::lemma2_to64();
                if 32 < e {
                    lemma_pow2_strictly_increases(32, e);
                }
            }
        }
    } else if grid_fits(n, cw, ch, pow2(k) as int) {
        assert forall|e: nat| k <= e && #[trigger] pow2(e) < pow2(k) implies false by {
            if k < e {
                lemma_pow2_strictly_increases(k, e);
            }
        }
    } else {
        lemma_first_fit_facts(n, cw, ch, max_side, k + 1);
        if let Some(s) = first_fit(n, cw, ch, max_side, k + 1) {
            assert forall|e: nat| k <= e && #[trigger] pow2(e) < s implies !grid_fits(n, cw, ch, pow2(e) as int) by {
                if e == k {
                } else {
                    assert(k + 1 <= e);
                }
            }
        } else {
            assert forall|e: nat| k <= e && #[trigger] pow2(e) <= max_side implies !grid_fits(n, cw, ch, pow2(e) as int) by {
                if e == k {
                } else {
                    assert(k + 1 <= e);
                }
            }
        }
    }
}

/// The atlas side chosen for `n` cells of `cw` by `ch` is the smallest power
/// of two, at most `max_side`, whose square holds them all; when no such side
/// exists none is chosen.
pub proof fn atlas_side_is_smallest_fit(n: int, cw: int, ch: int, max_side: int)
    requires
        max_side <= u32::MAX,
    ensures
        first_fit(n, cw, ch, max_side, 0) matches Some(s) ==> {
            &&& exists|e: nat| s == #[trigger] pow2(e)
            &&& s <= max_side
            &&& grid_fits(n, cw, ch, s)
            &&& forall|e: nat| #[trigger] pow2(e) < s ==> !grid_fits(n, cw, ch, pow2(e) as int)
        },
        first_fit(n, cw, ch, max_side, 0) is None ==> forall|e: nat|
            #[trigger] pow2(e) <= max_side ==> !grid_fits(n, cw, ch, pow2(e) as int),
{
    lemma_first_fit_facts(n, cw, ch, max_side, 0);
}

/// Chooses the atlas for `n` cells of `cw` by `ch` pixels: the smallest
/// power-of-two side up to `max_side` whose square holds them all, with as
/// many columns and rows as fit in it.
pub fn atlas_grid(n: u32, cw: u32, ch: u32, max_side: u32) -> (res: Option<AtlasGrid>)
    requires
        cw > 0,
        ch > 0,
    ensures
        res is Some <==> first_fit(n as int, cw as int, ch as int, max_side as int, 0) is Some,
        res matches Some(g) ==> {
            &&& first_fit(n as int, cw as int, ch as int, max_side as int, 0) == Some(g.side as int)
            &&& g.cols == g.side / cw
            &&& g.rows == g.side / ch
        },
{
    let mut side: u64 = 1;
    let ghost mut k: nat = 0;
    proof {
        vstd::arithmetic::power2::lemma2_to64();
    }
    while side <= max_side as u64
        invariant
            cw > 0,
            ch > 0,
            k <= 32,
            side == pow2(k),
            first_fit(n as int, cw as int, ch as int, max_side as int, 0) == first_fit(
                n as int,
                cw as int,
                ch as int,
                max_side as int,
                k,
            ),
        decreases 33 - k,
    {
        proof {
            if k >= 32 {
                vstd::arithmetic::power2::lemma2_to64();
                if k > 32 {
                    lemma_pow2_strictly_increases(32, k);
                }
            }
        }
        let s = side as u32;
        let c = s / cw;
        let r = s / ch;
        proof {
            assert(c * r <= u32::MAX * u32::MAX) by (nonlinear_arith)
                requires
                    c <= u32::MAX,
                    r <= u32::MAX,
            ;
        }
        let cap = c as u64 * r as u64;
        if cap >= n as u64 && c > 0 && r > 0 {
            return Some(AtlasGrid { side: s, cols: c, rows: r });
        }
        proof {
            assert(!grid_fits(n as int, cw as int, ch as int, side as int)) by (nonlinear_arith)
                requires
                    !(cap >= n && c > 0 && r > 0),
                    c == s / cw,
                    s == side,
                    r == s / ch,
                    cap == c * r,
            ;
            lemma_pow2_unfold(k + 1);
        }
        side = side * 2;
        proof {
            k = k + 1;
        }
    }
    None
}

} // verus!

verus! {

/// `p` with its alpha cleared.
pub open spec fn transparent(p: Rgba) -> Rgba {
    Rgba { r: p.r, g: p.g, b: p.b, a: 0 }
}

pub open spec fn clamp(v: int, lo: int, hi: int) -> int {
    if v < lo {
        lo
    } else if v > hi {
        hi
    } else {
        v
    }
}

/// The texture with its border: `PADDING` pixels around it on every side.
pub open spec fn in_padded_rect(tex: RgbaBuffer, x0: int, y0: int, x: int, y: int) -> bool {
    &&& x0 - PADDING <= x < x0 + tex.width + PADDING
    &&& y0 - PADDING <= y < y0 + tex.height + PADDING
}

/// Pixel `(x, y)` of an atlas holding `tex` with its top-left pixel at
/// `(x0, y0)`: the texture itself, surrounded by a border that repeats its
/// edge pixels with alpha zero; clear everywhere else. A texture without
/// pixels leaves everything clear.
pub open spec fn padded_pixel(tex: RgbaBuffer, x0: int, y0: int, x: int, y: int) -> Rgba {
    let w = tex.width as int;
    let h = tex.height as int;
    if w == 0 || h == 0 || !in_padded_rect(tex, x0, y0, x, y) {
        clear_pixel()
    } else {
        let p = tex.px(clamp(x - x0, 0, w - 1), clamp(y - y0, 0, h - 1));
        if x0 <= x < x0 + w && y0 <= y < y0 + h {
            p
        } else {
            transparent(p)
        }
    }
}

fn transparent_of(p: Rgba) -> (q: Rgba)
    ensures
        q == transparent(p),
{
    Rgba { r: p.r, g: p.g, b: p.b, a: 0 }
}

/// Copies `tex` into `atlas` at `(x0, y0)` and extrudes its edge pixels,
/// with alpha zero, into the `PADDING` pixels around it: rows first, then
/// columns, so the corners repeat the texture's corner pixels.
fn place_texture(atlas: &mut RgbaBuffer, tex: &RgbaBuffer, x0: u32, y0: u32)
    requires
        old(atlas).wf(),
        tex.wf(),
        x0 >= PADDING,
        y0 >= PADDING,
        x0 + tex.width + PADDING <= old(atlas).width,
        y0 + tex.height + PADDING <= old(atlas).height,
        forall|x: int, y: int|
            #[trigger] in_padded_rect(*tex, x0 as int, y0 as int, x, y) ==> old(atlas).px(x, y)
                == clear_pixel(),
    ensures
        final(atlas).wf(),
        final(atlas).width == old(atlas).width,
        final(atlas).height == old(atlas).height,
        forall|x: int, y: int|
            #[trigger] final(atlas).in_bounds(x, y) ==> final(atlas).px(x, y) == if in_padded_rect(
                *tex,
                x0 as int,
                y0 as int,
                x,
                y,
            ) {
                padded_pixel(*tex, x0 as int, y0 as int, x, y)
            } else {
                old(atlas).px(x, y)
            },
{
    let ghost orig = *atlas;
    let ghost t = *tex;
    let ghost xi = x0 as int;
    let ghost yi = y0 as int;
    atlas.copy_from(tex, x0, y0);
    let (w, h) = tex.dimensions();
    if w == 0 || h == 0 {
        // nothing was copied, and there is no edge to extrude
        proof {
            assert forall|x: int, y: int| #[trigger] atlas.in_bounds(x, y) implies atlas.px(x, y) == if in_padded_rect(t, xi, yi, x, y) {
                padded_pixel(t, xi, yi, x, y)
            } else {
                orig.px(x, y)
            } by {
                if in_padded_rect(t, xi, yi, x, y) {
                    assert(orig.px(x, y) == clear_pixel());
                }
            }
        }
        return;
    }
    let x1 = x0 + w - 1;
    let y1 = y0 + h - 1;
    // left and right borders, row by row
    let mut y: u32 = 0;
    while y < h
        invariant
            atlas.wf(),
            tex.wf(),
            t == *tex,
            xi == x0,
            yi == y0,
            w == tex.width,
            h == tex.height,
            w > 0,
            h > 0,
            x1 == x0 + w - 1,
            y1 == y0 + h - 1,
            x0 >= PADDING,
            y0 >= PADDING,
            atlas.width == orig.width,
            atlas.height == orig.height,
            x0 + w + PADDING <= orig.width,
            y0 + h + PADDING <= orig.height,
            y <= h,
            forall|x: int, yy: int|
                #[trigger] atlas.in_bounds(x, yy) ==> atlas.px(x, yy) == if in_padded_rect(t, xi, yi, x, yy) {
                    if (x0 <= x < x0 + w && y0 <= yy < y0 + h) || (y0 <= yy < y0 + y && (x0 - PADDING <= x
                        < x0 || x0 + w <= x < x0 + w + PADDING)) {
                        padded_pixel(t, xi, yi, x, yy)
                    } else {
                        clear_pixel()
                    }
                } else {
                    orig.px(x, yy)
                },
        decreases h - y,
    {
        let sy = y0 + y;
        proof {
            assert(atlas.in_bounds(x0 as int, sy as int));
            assert(atlas.in_bounds(x1 as int, sy as int));
            assert(in_padded_rect(t, xi, yi, x0 as int, sy as int));
            assert(in_padded_rect(t, xi, yi, x1 as int, sy as int));
        }
        let left = atlas.get_pixel(x0, sy);
        let right = atlas.get_pixel(x1, sy);
        let mut px: u32 = 1;
        while px <= PADDING
            invariant
                atlas.wf(),
                tex.wf(),
                t == *tex,
                xi == x0,
                yi == y0,
                w == tex.width,
                h == tex.height,
                w > 0,
                h > 0,
                x1 == x0 + w - 1,
                y1 == y0 + h - 1,
                x0 >= PADDING,
                y0 >= PADDING,
                atlas.width == orig.width,
                atlas.height == orig.height,
                x0 + w + PADDING <= orig.width,
                y0 + h + PADDING <= orig.height,
                y < h,
                sy == y0 + y,
                left == padded_pixel(t, xi, yi, x0 as int, sy as int),
                right == padded_pixel(t, xi, yi, x1 as int, sy as int),
                1 <= px <= PADDING + 1,
                forall|x: int, yy: int|
                    #[trigger] atlas.in_bounds(x, yy) ==> atlas.px(x, yy) == if in_padded_rect(t, xi, yi, x, yy) {
                        if (x0 <= x < x0 + w && y0 <= yy < y0 + h) || (y0 <= yy < y0 + y && (x0 - PADDING
                            <= x < x0 || x0 + w <= x < x0 + w + PADDING)) || (yy == sy && (x0 - px < x < x0
                            || x0 + w <= x < x0 + w + px - 1)) {
                            padded_pixel(t, xi, yi, x, yy)
                        } else {
                            clear_pixel()
                        }
                    } else {
                        orig.px(x, yy)
                    },
            decreases PADDING + 1 - px,
        {
            let ghost before = *atlas;
            atlas.put_pixel(x0 - px, sy, transparent_of(left));
            let ghost mid = *atlas;
            atlas.put_pixel(x1 + px, sy, transparent_of(right));
            proof {
                assert forall|x: int, yy: int| #[trigger] atlas.in_bounds(x, yy) implies atlas.px(x, yy) == if in_padded_rect(t, xi, yi, x, yy) {
                    if (x0 <= x < x0 + w && y0 <= yy < y0 + h) || (y0 <= yy < y0 + y && (x0 - PADDING
                        <= x < x0 || x0 + w <= x < x0 + w + PADDING)) || (yy == sy && (x0 - (px + 1) < x < x0
                        || x0 + w <= x < x0 + w + px)) {
                        padded_pixel(t, xi, yi, x, yy)
                    } else {
                        clear_pixel()
                    }
                } else {
                    orig.px(x, yy)
                } by {
                    assert(before.in_bounds(x, yy));
                    assert(mid.in_bounds(x, yy));
                }
            }
            px = px + 1;
        }
        y = y + 1;
    }
    // top and bottom borders, column by column, across the side borders too
    let mut x: u32 = x0 - PADDING;
    while x <= x1 + PADDING
        invariant
            atlas.wf(),
            tex.wf(),
            t == *tex,
            xi == x0,
            yi == y0,
            w == tex.width,
            h == tex.height,
            w > 0,
            h > 0,
            x1 == x0 + w - 1,
            y1 == y0 + h - 1,
            x0 >= PADDING,
            y0 >= PADDING,
            atlas.width == orig.width,
            atlas.height == orig.height,
            x0 + w + PADDING <= orig.width,
            y0 + h + PADDING <= orig.height,
            x0 - PADDING <= x <= x1 + PADDING + 1,
            forall|xx: int, yy: int|
                #[trigger] atlas.in_bounds(xx, yy) ==> atlas.px(xx, yy) == if in_padded_rect(t, xi, yi, xx, yy) {
                    if (y0 <= yy < y0 + h) || (xx < x && (y0 - PADDING <= yy < y0 || y0 + h <= yy < y0 + h
                        + PADDING)) {
                        padded_pixel(t, xi, yi, xx, yy)
                    } else {
                        clear_pixel()
                    }
                } else {
                    orig.px(xx, yy)
                },
        decreases x1 + PADDING + 1 - x,
    {
        proof {
            assert(atlas.in_bounds(x as int, y0 as int));
            assert(atlas.in_bounds(x as int, y1 as int));
            assert(in_padded_rect(t, xi, yi, x as int, y0 as int));
            assert(in_padded_rect(t, xi, yi, x as int, y1 as int));
        }
        let top = atlas.get_pixel(x, y0);
        let bot = atlas.get_pixel(x, y1);
        let mut py: u32 = 1;
        while py <= PADDING
            invariant
                atlas.wf(),
                tex.wf(),
                t == *tex,
                xi == x0,
                yi == y0,
                w == tex.width,
                h == tex.height,
                w > 0,
                h > 0,
                x1 == x0 + w - 1,
                y1 == y0 + h - 1,
                x0 >= PADDING,
                y0 >= PADDING,
                atlas.width == orig.width,
                atlas.height == orig.height,
                x0 + w + PADDING <= orig.width,
                y0 + h + PADDING <= orig.height,
                x0 - PADDING <= x <= x1 + PADDING,
                top == padded_pixel(t, xi, yi, x as int, y0 as int),
                bot == padded_pixel(t, xi, yi, x as int, y1 as int),
                1 <= py <= PADDING + 1,
                forall|xx: int, yy: int|
                    #[trigger] atlas.in_bounds(xx, yy) ==> atlas.px(xx, yy) == if in_padded_rect(t, xi, yi, xx, yy) {
                        if (y0 <= yy < y0 + h) || (xx < x && (y0 - PADDING <= yy < y0 || y0 + h <= yy < y0
                            + h + PADDING)) || (xx == x && (y0 - py < yy < y0 || y0 + h <= yy < y0 + h + py
                            - 1)) {
                            padded_pixel(t, xi, yi, xx, yy)
                        } else {
                            clear_pixel()
                        }
                    } else {
                        orig.px(xx, yy)
                    },
            decreases PADDING + 1 - py,
        {
            let ghost before = *atlas;
            atlas.put_pixel(x, y0 - py, transparent_of(top));
            let ghost mid = *atlas;
            atlas.put_pixel(x, y1 + py, transparent_of(bot));
            proof {
                assert forall|xx: int, yy: int| #[trigger] atlas.in_bounds(xx, yy) implies atlas.px(xx, yy) == if in_padded_rect(t, xi, yi, xx, yy) {
                    if (y0 <= yy < y0 + h) || (xx < x && (y0 - PADDING <= yy < y0 || y0 + h <= yy < y0
                        + h + PADDING)) || (xx == x && (y0 - (py + 1) < yy < y0 || y0 + h <= yy < y0 + h + py)) {
                        padded_pixel(t, xi, yi, xx, yy)
                    } else {
                        clear_pixel()
                    }
                } else {
                    orig.px(xx, yy)
                } by {
                    assert(before.in_bounds(xx, yy));
                    assert(mid.in_bounds(xx, yy));
                }
            }
            py = py + 1;
        }
        x = x + 1;
    }
}

} // verus!

verus! {

/// Where a texture lies in its atlas, in pixels: columns `x0..x1`, rows
/// `y0..y1`, of an atlas `side` pixels square.
#[derive(PartialEq, Eq, Structural, Clone, Copy, Debug)]
pub struct UvRect {
    pub x0: u32,
    pub y0: u32,
    pub x1: u32,
    pub y1: u32,
    pub side: u32,
}

/// A finished atlas: its id, its side and where each of its textures lies.
pub struct TextureAtlas {
    pub id: u32,
    pub side: u32,
    pub uvs: Vec<UvRect>,
}

/// All finished atlases, indexed by id.
pub struct AtlasManager {
    pub atlases: Vec<TextureAtlas>,
}

/// Collects textures for one atlas.
pub struct TextureAtlasBuilder {
    pub max_w: i32,
    pub max_h: i32,
    pub id: u32,
    pub textures: Vec<RgbaBuffer>,
    pub data_format: AtlasFormat,
}

/// Slot `s` of the grid lies in column `s % cols` and row `s / cols`; its
/// texture starts `PADDING` pixels into its cell.
pub open spec fn slot_x0(s: int, cols: int, cw: int) -> int {
    (s % cols) * cw + PADDING
}

pub open spec fn slot_y0(s: int, cols: int, ch: int) -> int {
    (s / cols) * ch + PADDING
}

/// Pixel `(x, y)` of the atlas built from `texs`, in cells of `cw` by `ch`,
/// `cols` to a row, counting only the first `done` textures.
pub open spec fn atlas_pixel_upto(
    texs: Seq<RgbaBuffer>,
    done: int,
    cols: int,
    cw: int,
    ch: int,
    x: int,
    y: int,
) -> Rgba {
    let col = x / cw;
    let row = y / ch;
    let s = row * cols + col;
    if col < cols && s < done {
        padded_pixel(texs[s], col * cw + PADDING, row * ch + PADDING, x, y)
    } else {
        clear_pixel()
    }
}

pub open spec fn atlas_pixel(texs: Seq<RgbaBuffer>, cols: int, cw: int, ch: int, x: int, y: int) -> Rgba {
    atlas_pixel_upto(texs, texs.len() as int, cols, cw, ch, x, y)
}

/// Where texture `s` of `texs` lands in an atlas of `side` pixels.
pub open spec fn slot_rect(texs: Seq<RgbaBuffer>, s: int, cols: int, cw: int, ch: int, side: int) -> UvRect {
    UvRect {
        x0: slot_x0(s, cols, cw) as u32,
        y0: slot_y0(s, cols, ch) as u32,
        x1: (slot_x0(s, cols, cw) + texs[s].width) as u32,
        y1: (slot_y0(s, cols, ch) + texs[s].height) as u32,
        side: side as u32,
    }
}

proof fn lemma_cell_of(x: int, cw: int, col: int)
    requires
        cw > 0,
        0 <= col,
        col * cw <= x < col * cw + cw,
    ensures
        x / cw == col,
{
    vstd::arithmetic::div_mod::lemma_fundamental_div_mod_converse(x, cw, col, x - col * cw);
}

impl TextureAtlasBuilder {
    /// Every collected texture is a proper image no larger than the largest
    /// dimensions seen.
    pub open spec fn wf(&self) -> bool {
        &&& 0 <= self.max_w
        &&& 0 <= self.max_h
        &&& self.textures.len() <= u32::MAX
        &&& forall|i: int|
            0 <= i < self.textures.len() ==> {
                &&& (#[trigger] self.textures@[i]).wf()
                &&& self.textures@[i].width <= self.max_w
                &&& self.textures@[i].height <= self.max_h
            }
    }

    pub open spec fn cell_w(&self) -> int {
        self.max_w + 2 * PADDING
    }

    pub open spec fn cell_h(&self) -> int {
        self.max_h + 2 * PADDING
    }

    /// Adds a `width` by `height` texture given as RGBA bytes, row by row,
    /// and names it by this atlas and its slot.
    pub fn register(&mut self, width: i32, height: i32, data: &[u8]) -> (t: Texture)
        requires
            old(self).wf(),
            0 <= width,
            0 <= height,
            width * height * 4 == data@.len(),
            data@.len() <= i32::MAX,
            old(self).textures.len() < u32::MAX,
        ensures
            final(self).wf(),
            t == Texture(old(self).id, old(self).textures.len() as u32),
            final(self).id == old(self).id,
            final(self).data_format == old(self).data_format,
            final(self).max_w == if width > old(self).max_w { width } else { old(self).max_w },
            final(self).max_h == if height > old(self).max_h { height } else { old(self).max_h },
            final(self).textures.len() == old(self).textures.len() + 1,
            forall|i: int| 0 <= i < old(self).textures.len() ==> #[trigger] final(self).textures@[i] == old(self).textures@[i],
            ({
                let img = final(self).textures@[old(self).textures.len() as int];
                &&& img.width == width
                &&& img.height == height
                &&& forall|x: int, y: int| #[trigger] img.in_bounds(x, y) ==> img.px(x, y) == bytes_pixel(data@, width as int, x, y)
            }),
    {
        let size = pixel_size(self.data_format).unwrap();
        proof {
            // one texel of `size` bytes per pixel
            assert(width * height * size == data@.len());
        }
        if width > self.max_w {
            self.max_w = width;
        }
        if height > self.max_h {
            self.max_h = height;
        }
        let image = RgbaBuffer::from_raw(width as u32, height as u32, data).unwrap();
        let slot = self.textures.len() as u32;
        let ghost before = self.textures@;
        self.textures.push(image);
        proof {
            assert forall|i: int| 0 <= i < self.textures.len() implies {
                &&& (#[trigger] self.textures@[i]).wf()
                &&& self.textures@[i].width <= self.max_w
                &&& self.textures@[i].height <= self.max_h
            } by {
                if i < before.len() {
                    assert(self.textures@[i] == before[i]);
                }
            }
        }
        Texture(self.id, slot)
    }
}

} // verus!

verus! {

proof fn lemma_slot_in_grid(slot: int, n: int, cols: int, rows: int)
    requires
        0 <= slot < n,
        cols > 0,
        rows > 0,
        cols * rows >= n,
    ensures
        0 <= slot / cols < rows,
        0 <= slot % cols < cols,
        slot == (slot / cols) * cols + slot % cols,
{
    vstd::arithmetic::div_mod::lemma_fundamental_div_mod(slot, cols);
    vstd::arithmetic::div_mod::lemma_mod_bound(slot, cols);
    vstd::arithmetic::div_mod::lemma_div_pos_is_pos(slot, cols);
    assert(slot / cols < rows) by (nonlinear_arith)
        requires
            slot == cols * (slot / cols) + slot % cols,
            0 <= slot % cols,
            slot < cols * rows,
            cols > 0,
    ;
    assert(cols * (slot / cols) == (slot / cols) * cols) by (nonlinear_arith);
}

proof fn lemma_cells_inside(col: int, cols: int, cw: int, side: int)
    requires
        0 <= col < cols,
        cw > 0,
        cols == side / cw,
        side >= 0,
    ensures
        0 <= col * cw,
        col * cw + cw <= side,
{
    vstd::arithmetic::div_mod::lemma_fundamental_div_mod(side, cw);
    vstd::arithmetic::div_mod::lemma_mod_bound(side, cw);
    assert(0 <= col * cw) by (nonlinear_arith)
        requires
            0 <= col,
            cw > 0,
    ;
    assert(col * cw + cw <= side) by (nonlinear_arith)
        requires
            col + 1 <= cols,
            cw > 0,
            side == cw * cols + side % cw,
            0 <= side % cw,
    ;
}

/// A pixel of the padded rectangle of slot `slot` lies in that slot's cell.
proof fn lemma_pixel_in_slot(slot: int, cols: int, cw: int, ch: int, tw: int, th: int, x: int, y: int)
    requires
        slot >= 0,
        cols > 0,
        0 <= tw <= cw - 2 * PADDING,
        0 <= th <= ch - 2 * PADDING,
        (slot % cols) * cw <= x < (slot % cols) * cw + tw + 2 * PADDING,
        (slot / cols) * ch <= y < (slot / cols) * ch + th + 2 * PADDING,
    ensures
        x / cw == slot % cols,
        y / ch == slot / cols,
        (y / ch) * cols + x / cw == slot,
{
    vstd::arithmetic::div_mod::lemma_fundamental_div_mod(slot, cols);
    vstd::arithmetic::div_mod::lemma_mod_bound(slot, cols);
    vstd::arithmetic::div_mod::lemma_div_pos_is_pos(slot, cols);
    lemma_cell_of(x, cw, slot % cols);
    lemma_cell_of(y, ch, slot / cols);
    assert((slot / cols) * cols == cols * (slot / cols)) by (nonlinear_arith);
}

/// A pixel whose cell is slot `slot` has that slot's column and row.
proof fn lemma_cell_is_slot(slot: int, cols: int, cw: int, ch: int, x: int, y: int)
    requires
        slot >= 0,
        cols > 0,
        cw > 0,
        ch > 0,
        x >= 0,
        y >= 0,
        x / cw < cols,
        (y / ch) * cols + x / cw == slot,
    ensures
        x / cw == slot % cols,
        y / ch == slot / cols,
{
    vstd::arithmetic::div_mod::lemma_div_pos_is_pos(x, cw);
    vstd::arithmetic::div_mod::lemma_div_pos_is_pos(y, ch);
    assert((y / ch) * cols == (y / ch) * cols);
    vstd::arithmetic::div_mod::lemma_fundamental_div_mod_converse(slot, cols, y / ch, x / cw);
}

impl AtlasManager {
    pub fn new_empty() -> (m: Self)
        ensures
            m.atlases.len() == 0,
    {
        AtlasManager { atlases: Vec::new() }
    }

    /// Starts a new atlas, which will take the next free id.
    pub fn create_atlas(&self, format: AtlasFormat) -> (b: TextureAtlasBuilder)
        requires
            self.atlases.len() < u32::MAX,
        ensures
            b.wf(),
            b.id == self.atlases.len(),
            b.max_w == 0,
            b.max_h == 0,
            b.textures.len() == 0,
            b.data_format == format,
    {
        TextureAtlasBuilder {
            max_w: 0,
            max_h: 0,
            id: self.atlases.len() as u32,
            textures: Vec::new(),
            data_format: format,
        }
    }

    /// Where `texture` lies in its atlas.
    pub fn get_uv(&self, texture: Texture) -> (uv: UvRect)
        requires
            texture.0 < self.atlases.len(),
            texture.1 < self.atlases@[texture.0 as int].uvs.len(),
        ensures
            uv == self.atlases@[texture.0 as int].uvs@[texture.1 as int],
    {
        self.atlases[texture.0 as usize].uvs[texture.1 as usize]
    }
}

impl TextureAtlasBuilder {
    /// Lays the collected textures out in a square atlas and records where
    /// each one went in `manager`, under this builder's id. Every texture gets
    /// a cell as large as the largest texture plus `PADDING` on each side; the
    /// atlas side is the smallest power of two up to `max_side` with room for
    /// all cells (`atlas_grid`). Returns the atlas image, or nothing when no
    /// texture was registered.
    pub fn finalize(self, manager: &mut AtlasManager, max_side: u32) -> (res: Option<RgbaBuffer>)
        requires
            self.wf(),
            self.id <= old(manager).atlases.len(),
            self.textures.len() > 0 ==> (first_fit(
                self.textures.len() as int,
                self.cell_w(),
                self.cell_h(),
                max_side as int,
                0,
            ) matches Some(s) && s * s * 4 <= usize::MAX),
        ensures
            self.textures.len() == 0 ==> res is None && final(manager).atlases@ == old(manager).atlases@,
            self.textures.len() > 0 ==> (res matches Some(img) && {
                let s = first_fit(
                    self.textures.len() as int,
                    self.cell_w(),
                    self.cell_h(),
                    max_side as int,
                    0,
                ).unwrap();
                let cols = s / self.cell_w();
                &&& img.wf()
                &&& img.width == s
                &&& img.height == s
                &&& forall|x: int, y: int| #[trigger] img.in_bounds(x, y) ==> img.px(x, y) == atlas_pixel(
                    self.textures@,
                    cols,
                    self.cell_w(),
                    self.cell_h(),
                    x,
                    y,
                )
                &&& final(manager).atlases.len() == if self.id < old(manager).atlases.len() {
                    old(manager).atlases.len() as int
                } else {
                    old(manager).atlases.len() + 1
                }
                &&& forall|i: int| 0 <= i < old(manager).atlases.len() && i != self.id ==> #[trigger] final(manager).atlases@[i]
                    == old(manager).atlases@[i]
                &&& final(manager).atlases@[self.id as int].id == self.id
                &&& final(manager).atlases@[self.id as int].side == s
                &&& final(manager).atlases@[self.id as int].uvs.len() == self.textures.len()
                &&& forall|k: int| 0 <= k < self.textures.len() ==> #[trigger] final(manager).atlases@[self.id as int].uvs@[k]
                    == slot_rect(self.textures@, k, cols, self.cell_w(), self.cell_h(), s)
            }),
    {
        let n = self.textures.len();
        if n == 0 {
            return None;
        }
        let p = PADDING;
        let cell_w: u32 = self.max_w as u32 + 2 * p;
        let cell_h: u32 = self.max_h as u32 + 2 * p;
        let ghost texs = self.textures@;
        let ghost cw = cell_w as int;
        let ghost ch = cell_h as int;
        // every texture fits its cell with the border around it
        assert(forall|i: int| 0 <= i < n ==> (#[trigger] texs[i]).width + 2 * p <= cw && texs[i].height + 2 * p <= ch);
        let grid = atlas_grid(n as u32, cell_w, cell_h, max_side);
        let g = grid.unwrap();
        let line = g.side;
        let cols = g.cols;
        let rows = g.rows;
        proof {
            lemma_first_fit_facts(n as int, cw, ch, max_side as int, 0);
            assert(grid_fits(n as int, cw, ch, line as int));
        }
        let mut atlas_image = RgbaBuffer::new(line, line);
        let mut uvs: Vec<UvRect> = Vec::new();
        let mut slot: usize = 0;
        while slot < n
            invariant
                self.wf(),
                texs == self.textures@,
                n == texs.len(),
                n <= u32::MAX,
                cw == cell_w,
                ch == cell_h,
                cw == self.cell_w(),
                ch == self.cell_h(),
                p == PADDING,
                forall|i: int| 0 <= i < n ==> (#[trigger] texs[i]).width + 2 * p <= cw && texs[i].height + 2 * p <= ch,
                cols == line / cell_w,
                rows == line / cell_h,
                cols > 0,
                rows > 0,
                cols * rows >= n,
                atlas_image.wf(),
                atlas_image.width == line,
                atlas_image.height == line,
                slot <= n,
                uvs.len() == slot,
                forall|k: int| 0 <= k < slot ==> #[trigger] uvs@[k] == slot_rect(texs, k, cols as int, cw, ch, line as int),
                forall|x: int, y: int|
                    #[trigger] atlas_image.in_bounds(x, y) ==> atlas_image.px(x, y) == atlas_pixel_upto(
                        texs,
                        slot as int,
                        cols as int,
                        cw,
                        ch,
                        x,
                        y,
                    ),
            decreases n - slot,
        {
            let texture = &self.textures[slot];
            proof {
                lemma_slot_in_grid(slot as int, n as int, cols as int, rows as int);
            }
            let row = slot as u32 / cols;
            let col = slot as u32 % cols;
            let (w, h) = texture.dimensions();
            proof {
                lemma_cells_inside(col as int, cols as int, cw, line as int);
                lemma_cells_inside(row as int, rows as int, ch, line as int);
            }
            let cell_x = col * cell_w;
            let cell_y = row * cell_h;
            let dst_x0 = cell_x + p;
            let dst_y0 = cell_y + p;
            proof {
                assert forall|x: int, y: int| #[trigger] in_padded_rect(*texture, dst_x0 as int, dst_y0 as int, x, y) implies atlas_image.px(x, y) == clear_pixel() by {
                    lemma_pixel_in_slot(slot as int, cols as int, cw, ch, w as int, h as int, x, y);
                    assert(atlas_image.in_bounds(x, y));
                }
            }
            let ghost before = atlas_image;
            place_texture(&mut atlas_image, texture, dst_x0, dst_y0);
            uvs.push(UvRect { x0: dst_x0, y0: dst_y0, x1: dst_x0 + w, y1: dst_y0 + h, side: line });
            proof {
                assert forall|x: int, y: int| #[trigger] atlas_image.in_bounds(x, y) implies atlas_image.px(x, y)
                    == atlas_pixel_upto(texs, slot + 1, cols as int, cw, ch, x, y) by {
                    assert(before.in_bounds(x, y));
                    if in_padded_rect(*texture, dst_x0 as int, dst_y0 as int, x, y) {
                        lemma_pixel_in_slot(slot as int, cols as int, cw, ch, w as int, h as int, x, y);
                    } else {
                        let cx = x / cw;
                        let cy = y / ch;
                        if cx < cols && cy * cols + cx == slot {
                            lemma_cell_is_slot(slot as int, cols as int, cw, ch, x, y);
                        }
                    }
                }
            }
            slot = slot + 1;
        }
        let atlas = TextureAtlas { id: self.id, side: line, uvs };
        if manager.atlases.len() > self.id as usize {
            manager.atlases.set(self.id as usize, atlas);
        } else {
            manager.atlases.push(atlas);
        }
        Some(atlas_image)
    }
}

} // verus!

verus! {

/// Side of the built-in disc and ring textures is twice this radius.
pub const CIRCLE_RADIUS: i32 = 512;

/// Squared distance of pixel `(x, y)` from the centre `(r, r)`.
pub open spec fn centre_dist(r: int, x: int, y: int) -> int {
    (r - x) * (r - x) + (r - y) * (r - y)
}

pub open spec fn in_disc(r: int, x: int, y: int) -> bool {
    centre_dist(r, x, y) <= r * r
}

/// Inside the disc but not within half the radius of its centre.
pub open spec fn in_ring(r: int, x: int, y: int) -> bool {
    r * r / 4 < centre_dist(r, x, y) <= r * r
}

/// Byte `c` of pixel `(x, y)` in RGBA data with `w` pixels per row.
pub open spec fn byte_of(data: Seq<u8>, w: int, x: int, y: int, c: int) -> u8 {
    data[(y * w + x) * 4 + c]
}

/// RGBA data of a disc and of a ring of radius `r`, each `2r` pixels square:
/// white and opaque inside the shape, zero elsewhere.
pub fn circle_masks(r: i32) -> (res: (Vec<u8>, Vec<u8>))
    requires
        1 <= r <= 8192,
    ensures
        res.0.len() == 16 * r * r,
        res.1.len() == 16 * r * r,
        forall|x: int, y: int, c: int|
            0 <= x < 2 * r && 0 <= y < 2 * r && 0 <= c < 4 ==> #[trigger] byte_of(res.0@, 2 * r, x, y, c)
                == if in_disc(r as int, x, y) { 255u8 } else { 0u8 },
        forall|x: int, y: int, c: int|
            0 <= x < 2 * r && 0 <= y < 2 * r && 0 <= c < 4 ==> #[trigger] byte_of(res.1@, 2 * r, x, y, c)
                == if in_ring(r as int, x, y) { 255u8 } else { 0u8 },
{
    let d: i32 = 2 * r;
    proof {
        assert(0 < d * d <= 16384 * 16384) by (nonlinear_arith)
            requires
                2 <= d <= 16384,
        ;
        assert(0 < r * r <= 8192 * 8192) by (nonlinear_arith)
            requires
                1 <= r <= 8192,
        ;
        assert(4 * (d * d) == 16 * r * r) by (nonlinear_arith)
            requires
                d == 2 * r,
        ;
    }
    let total: i32 = d * d;
    let mut circle: Vec<u8> = Vec::new();
    let mut ring: Vec<u8> = Vec::new();
    let mut p: i32 = 0;
    while p < total
        invariant
            1 <= r <= 8192,
            d == 2 * r,
            total == d * d,
            4 * total == 16 * r * r,
            0 < r * r <= 8192 * 8192,
            0 <= p <= total,
            circle.len() == 4 * p,
            ring.len() == 4 * p,
            forall|q: int, c: int|
                0 <= q < p && 0 <= c < 4 ==> {
                    &&& #[trigger] circle@[4 * q + c] == if in_disc(r as int, q % (d as int), q / (d as int)) { 255u8 } else { 0u8 }
                    &&& ring@[4 * q + c] == if in_ring(r as int, q % (d as int), q / (d as int)) { 255u8 } else { 0u8 }
                },
        decreases total - p,
    {
        let x = p % d;
        let y = p / d;
        proof {
            vstd::arithmetic::div_mod::lemma_fundamental_div_mod(p as int, d as int);
            vstd::arithmetic::div_mod::lemma_mod_bound(p as int, d as int);
            vstd::arithmetic::div_mod::lemma_div_pos_is_pos(p as int, d as int);
            assert(y < d) by (nonlinear_arith)
                requires
                    p == d * y + x,
                    0 <= x,
                    p < d * d,
                    d > 0,
            ;
        }
        let dx = r - x;
        let dy = r - y;
        proof {
            assert(dx * dx <= 8192 * 8192) by (nonlinear_arith)
                requires
                    -8192 <= dx <= 8192,
            ;
            assert(dy * dy <= 8192 * 8192) by (nonlinear_arith)
                requires
                    -8192 <= dy <= 8192,
            ;
            assert(0 <= dx * dx) by (nonlinear_arith);
            assert(0 <= dy * dy) by (nonlinear_arith);
        }
        let dist = dx * dx + dy * dy;
        let inside = dist <= r * r;
        let cv: u8 = if inside { 255 } else { 0 };
        let rv: u8 = if inside && dist > r * r / 4 { 255 } else { 0 };
        let ghost c0 = circle@;
        let ghost r0 = ring@;
        let mut c: i32 = 0;
        while c < 4
            invariant
                0 <= c <= 4,
                circle.len() == 4 * p + c,
                ring.len() == 4 * p + c,
                circle@.subrange(0, 4 * p) == c0,
                ring@.subrange(0, 4 * p) == r0,
                c0.len() == 4 * p,
                r0.len() == 4 * p,
                forall|k: int| 4 * p <= k < 4 * p + c ==> circle@[k] == cv && ring@[k] == rv,
            decreases 4 - c,
        {
            circle.push(cv);
            ring.push(rv);
            c = c + 1;
        }
        proof {
            assert forall|q: int, cc: int| 0 <= q < p + 1 && 0 <= cc < 4 implies {
                &&& #[trigger] circle@[4 * q + cc] == if in_disc(r as int, q % (d as int), q / (d as int)) { 255u8 } else { 0u8 }
                &&& ring@[4 * q + cc] == if in_ring(r as int, q % (d as int), q / (d as int)) { 255u8 } else { 0u8 }
            } by {
                if q < p {
                    assert(circle@[4 * q + cc] == circle@.subrange(0, 4 * p)[4 * q + cc]);
                    assert(ring@[4 * q + cc] == ring@.subrange(0, 4 * p)[4 * q + cc]);
                    assert(c0[4 * q + cc] == circle@[4 * q + cc]);
                }
            }
        }
        p = p + 1;
    }
    proof {
        assert forall|x: int, y: int, c: int| #![trigger byte_of(circle@, 2 * r, x, y, c)] #![trigger byte_of(ring@, 2 * r, x, y, c)] 0 <= x < 2 * r && 0 <= y < 2 * r && 0 <= c < 4 implies {
            &&& byte_of(circle@, 2 * r, x, y, c) == if in_disc(r as int, x, y) { 255u8 } else { 0u8 }
            &&& byte_of(ring@, 2 * r, x, y, c) == if in_ring(r as int, x, y) { 255u8 } else { 0u8 }
        } by {
            let q = y * (d as int) + x;
            vstd::arithmetic::div_mod::lemma_fundamental_div_mod_converse(q, d as int, y, x);
            assert(0 <= q < total) by (nonlinear_arith)
                requires
                    q == y * d + x,
                    0 <= x < d,
                    0 <= y < d,
                    total == d * d,
            ;
            assert(4 * q + c == (y * (2 * r) + x) * 4 + c);
        }
    }
    (circle, ring)
}

} // verus!

verus! {

pub open spec fn opaque_white() -> Rgba {
    Rgba { r: 255, g: 255, b: 255, a: 255 }
}

/// The two-by-two magenta and black checkerboard of the missing texture.
pub open spec fn checker_pixel(x: int, y: int) -> Rgba {
    if x == y {
        Rgba { r: 227, g: 49, b: 239, a: 255 }
    } else {
        Rgba { r: 0, g: 0, b: 0, a: 255 }
    }
}

pub open spec fn mask_pixel(inside: bool) -> Rgba {
    if inside {
        opaque_white()
    } else {
        clear_pixel()
    }
}

/// Pixel `(a, b)` of a built-in texture: white, the checkerboard, the disc or
/// the ring of radius `CIRCLE_RADIUS`.
pub open spec fn builtin_texel(k: TextureKind, a: int, b: int) -> Rgba {
    match k {
        TextureKind::White => opaque_white(),
        TextureKind::NoTexture => checker_pixel(a, b),
        TextureKind::Circle => mask_pixel(in_disc(CIRCLE_RADIUS as int, a, b)),
        _ => mask_pixel(in_ring(CIRCLE_RADIUS as int, a, b)),
    }
}

/// Pixel `(x, y)` of an atlas holding the `w` by `h` built-in texture `k` with
/// its top-left pixel at `(x0, y0)`, as `padded_pixel` lays textures out: the
/// texture, a border repeating its edge with alpha zero, clear elsewhere.
pub open spec fn padded_builtin(k: TextureKind, w: int, h: int, x0: int, y0: int, x: int, y: int) -> Rgba {
    if w == 0 || h == 0 || !(x0 - PADDING <= x < x0 + w + PADDING && y0 - PADDING <= y < y0 + h
        + PADDING) {
        clear_pixel()
    } else {
        let p = builtin_texel(k, clamp(x - x0, 0, w - 1), clamp(y - y0, 0, h - 1));
        if x0 <= x < x0 + w && y0 <= y < y0 + h {
            p
        } else {
            transparent(p)
        }
    }
}

/// Every pixel of the first built-in atlas, sixteen pixels square: the white
/// texture in the first cell and the checkerboard in the second, both in the
/// top row of eight-pixel cells.
pub open spec fn white_atlas_pixel(x: int, y: int) -> Rgba {
    if x < 8 {
        padded_builtin(TextureKind::White, 4, 4, 2, 2, x, y)
    } else {
        padded_builtin(TextureKind::NoTexture, 2, 2, 10, 2, x, y)
    }
}

/// Every pixel of the second built-in atlas, 4096 pixels square: the disc in
/// the first cell and the ring in the second, both in the top row of cells
/// 1028 pixels square.
pub open spec fn circle_atlas_pixel(x: int, y: int) -> Rgba {
    if x < 1028 {
        padded_builtin(TextureKind::Circle, 1024, 1024, 2, 2, x, y)
    } else {
        padded_builtin(TextureKind::Hollow, 1024, 1024, 1030, 2, x, y)
    }
}

proof fn lemma_padded_builtin(tex: RgbaBuffer, k: TextureKind, x0: int, y0: int, x: int, y: int)
    requires
        forall|a: int, b: int| tex.in_bounds(a, b) ==> #[trigger] tex.px(a, b) == builtin_texel(k, a, b),
    ensures
        padded_pixel(tex, x0, y0, x, y) == padded_builtin(k, tex.width as int, tex.height as int, x0, y0, x, y),
{
    let w = tex.width as int;
    let h = tex.height as int;
    if w > 0 && h > 0 {
        assert(tex.in_bounds(clamp(x - x0, 0, w - 1), clamp(y - y0, 0, h - 1)));
    }
}

proof fn lemma_builtin_sides(max_side: int)
    requires
        4096 <= max_side <= u32::MAX,
    ensures
        first_fit(2, 8, 8, max_side, 0) == Some(16int),
        first_fit(2, 1028, 1028, max_side, 0) == Some(4096int),
{
    vstd::arithmetic::power2::lemma2_to64();
    reveal_with_fuel(first_fit, 14);
    assert(!grid_fits(2, 8, 8, 1));
    assert(!grid_fits(2, 8, 8, 2));
    assert(!grid_fits(2, 8, 8, 4));
    assert(8int / 8 == 1 && 4int / 8 == 0 && 2int / 8 == 0 && 1int / 8 == 0);
    assert(!grid_fits(2, 8, 8, 8));
    assert(16int / 8 == 2);
    assert(grid_fits(2, 8, 8, 16));
    assert(!grid_fits(2, 1028, 1028, 1));
    assert(!grid_fits(2, 1028, 1028, 2));
    assert(!grid_fits(2, 1028, 1028, 4));
    assert(!grid_fits(2, 1028, 1028, 8));
    assert(!grid_fits(2, 1028, 1028, 16));
    assert(!grid_fits(2, 1028, 1028, 32));
    assert(!grid_fits(2, 1028, 1028, 64));
    assert(!grid_fits(2, 1028, 1028, 128));
    assert(!grid_fits(2, 1028, 1028, 256));
    assert(!grid_fits(2, 1028, 1028, 512));
    assert(!grid_fits(2, 1028, 1028, 1024));
    assert(2048int / 1028 == 1 && 1024int / 1028 == 0);
    assert(!grid_fits(2, 1028, 1028, 2048));
    assert(4096int / 1028 == 3);
    assert(grid_fits(2, 1028, 1028, 4096));
}

fn solid_bytes(n: usize, value: u8) -> (v: Vec<u8>)
    ensures
        v.len() == n,
        forall|i: int| 0 <= i < n ==> v[i] == value,
{
    let mut v: Vec<u8> = Vec::new();
    while v.len() < n
        invariant
            v.len() <= n,
            forall|i: int| 0 <= i < v.len() ==> v[i] == value,
        decreases n - v.len(),
    {
        v.push(value);
    }
    v
}

/// An atlas pixel inside the rectangle of slot `s`, away from the border,
/// is the texture's own pixel.
proof fn lemma_inside_slot(
    texs: Seq<RgbaBuffer>,
    s: int,
    cols: int,
    cw: int,
    ch: int,
    x: int,
    y: int,
)
    requires
        0 <= s < texs.len(),
        cols > 0,
        0 <= texs[s].width <= cw - 2 * PADDING,
        0 <= texs[s].height <= ch - 2 * PADDING,
        slot_x0(s, cols, cw) <= x < slot_x0(s, cols, cw) + texs[s].width,
        slot_y0(s, cols, ch) <= y < slot_y0(s, cols, ch) + texs[s].height,
    ensures
        atlas_pixel(texs, cols, cw, ch, x, y) == texs[s].px(x - slot_x0(s, cols, cw), y - slot_y0(s, cols, ch)),
{
    lemma_pixel_in_slot(s, cols, cw, ch, texs[s].width as int, texs[s].height as int, x, y);
}

impl AtlasManager {
    /// The built-in textures: atlas 0 holds `Texture::white()` (four by four)
    /// and `Texture::no_texture()` (a two by two checkerboard); atlas 1 holds
    /// `Texture::circle()` and `Texture::hcircle()`, a disc and a ring of
    /// radius `CIRCLE_RADIUS`. Returns the manager and the two atlas images,
    /// by id, for the graphics device. `max_side` is the device's largest
    /// texture side.
    pub fn new(max_side: u32) -> (res: (AtlasManager, Vec<RgbaBuffer>))
        requires
            4096 <= max_side,
        ensures
            res.0.atlases.len() == 2,
            res.1.len() == 2,
            res.0.atlases@[0].id == 0,
            res.0.atlases@[0].side == 16,
            res.0.atlases@[0].uvs@ == seq![
                UvRect { x0: 2, y0: 2, x1: 6, y1: 6, side: 16 },
                UvRect { x0: 10, y0: 2, x1: 12, y1: 4, side: 16 },
            ],
            res.0.atlases@[1].id == 1,
            res.0.atlases@[1].side == 4096,
            res.0.atlases@[1].uvs@ == seq![
                UvRect { x0: 2, y0: 2, x1: 1026, y1: 1026, side: 4096 },
                UvRect { x0: 1030, y0: 2, x1: 2054, y1: 1026, side: 4096 },
            ],
            res.1@[0].wf() && res.1@[0].width == 16 && res.1@[0].height == 16,
            res.1@[1].wf() && res.1@[1].width == 4096 && res.1@[1].height == 4096,
            forall|x: int, y: int| 2 <= x < 6 && 2 <= y < 6 ==> #[trigger] res.1@[0].px(x, y) == opaque_white(),
            forall|x: int, y: int|
                10 <= x < 12 && 2 <= y < 4 ==> #[trigger] res.1@[0].px(x, y) == checker_pixel(x - 10, y - 2),
            forall|x: int, y: int|
                2 <= x < 1026 && 2 <= y < 1026 ==> #[trigger] res.1@[1].px(x, y) == mask_pixel(
                    in_disc(512, x - 2, y - 2),
                ),
            forall|x: int, y: int|
                1030 <= x < 2054 && 2 <= y < 1026 ==> #[trigger] res.1@[1].px(x, y) == mask_pixel(
                    in_ring(512, x - 1030, y - 2),
                ),
            forall|x: int, y: int|
                0 <= x < 16 && 0 <= y < 16 ==> #[trigger] res.1@[0].px(x, y) == white_atlas_pixel(x, y),
            forall|x: int, y: int|
                0 <= x < 4096 && 0 <= y < 4096 ==> #[trigger] res.1@[1].px(x, y) == circle_atlas_pixel(x, y),
    {
        proof {
            lemma_builtin_sides(max_side as int);
        }
        let mut this = AtlasManager::new_empty();
        let mut images: Vec<RgbaBuffer> = Vec::new();

        let mut atlas = this.create_atlas(AtlasFormat::Rgba8UnormSrgb);
        let white = solid_bytes(64, 255);
        atlas.register(4, 4, white.as_slice());
        let checker: Vec<u8> = vec![227, 49, 239, 255, 0, 0, 0, 255, 0, 0, 0, 255, 227, 49, 239, 255];
        atlas.register(2, 2, checker.as_slice());
        let ghost texs0 = atlas.textures@;
        assert(atlas.textures.len() == 2);
        assert(atlas.max_w == 4);
        assert(atlas.cell_w() == 8);
        assert(atlas.cell_h() == 8);
        assert(first_fit(2, 8, 8, max_side as int, 0) == Some(16int));
        assert(16int * 16 * 4 <= usize::MAX);
        let img0 = atlas.finalize(&mut this, max_side).unwrap();
        proof {
            assert forall|x: int, y: int| 2 <= x < 6 && 2 <= y < 6 implies #[trigger] img0.px(x, y) == opaque_white() by {
                assert(img0.in_bounds(x, y));
                assert(0int % 2 == 0 && 0int / 2 == 0);
                assert(slot_x0(0, 2, 8) == 2 && slot_y0(0, 2, 8) == 2);
                lemma_inside_slot(texs0, 0, 2, 8, 8, x, y);
                assert(texs0[0].in_bounds(x - 2, y - 2));
            }
            assert forall|x: int, y: int| 10 <= x < 12 && 2 <= y < 4 implies #[trigger] img0.px(x, y) == checker_pixel(x - 10, y - 2) by {
                assert(img0.in_bounds(x, y));
                assert(1int % 2 == 1 && 1int / 2 == 0);
                assert(slot_x0(1, 2, 8) == 10 && slot_y0(1, 2, 8) == 2);
                lemma_inside_slot(texs0, 1, 2, 8, 8, x, y);
                assert(texs0[1].in_bounds(x - 10, y - 2));
                assert(checker@ =~= seq![227u8, 49, 239, 255, 0, 0, 0, 255, 0, 0, 0, 255, 227, 49, 239, 255]);
            }
            assert forall|a: int, b: int| texs0[0].in_bounds(a, b) implies #[trigger] texs0[0].px(a, b)
                == builtin_texel(TextureKind::White, a, b) by {
                assert(0 <= b * 4 + a < 16);
            }
            assert forall|a: int, b: int| texs0[1].in_bounds(a, b) implies #[trigger] texs0[1].px(a, b)
                == builtin_texel(TextureKind::NoTexture, a, b) by {
                assert(checker@ =~= seq![227u8, 49, 239, 255, 0, 0, 0, 255, 0, 0, 0, 255, 227, 49, 239, 255]);
            }
            assert forall|x: int, y: int| 0 <= x < 16 && 0 <= y < 16 implies #[trigger] img0.px(x, y)
                == white_atlas_pixel(x, y) by {
                assert(img0.in_bounds(x, y));
                lemma_padded_builtin(texs0[0], TextureKind::White, 2, 2, x, y);
                lemma_padded_builtin(texs0[1], TextureKind::NoTexture, 10, 2, x, y);
                if y < 8 {
                    if x < 8 {
                        assert(x / 8 == 0 && y / 8 == 0);
                    } else {
                        assert(x / 8 == 1 && y / 8 == 0);
                    }
                } else {
                    assert(y / 8 == 1);
                }
            }
        }
        images.push(img0);

        let mut atlas = this.create_atlas(AtlasFormat::Rgba8UnormSrgb);
        let (circle, hcircle) = circle_masks(CIRCLE_RADIUS);
        atlas.register(CIRCLE_RADIUS * 2, CIRCLE_RADIUS * 2, circle.as_slice());
        atlas.register(CIRCLE_RADIUS * 2, CIRCLE_RADIUS * 2, hcircle.as_slice());
        let ghost texs1 = atlas.textures@;
        let img1 = atlas.finalize(&mut this, max_side).unwrap();
        proof {
            assert forall|x: int, y: int| 2 <= x < 1026 && 2 <= y < 1026 implies #[trigger] img1.px(x, y) == mask_pixel(in_disc(512, x - 2, y - 2)) by {
                let xx = x - 2;
                let yy = y - 2;
                assert(img1.in_bounds(x, y));
                assert(0int % 3 == 0 && 0int / 3 == 0);
                assert(slot_x0(0, 3, 1028) == 2 && slot_y0(0, 3, 1028) == 2);
                lemma_inside_slot(texs1, 0, 3, 1028, 1028, x, y);
                assert(texs1[0].in_bounds(xx, yy));
                assert(img1.px(x, y) == texs1[0].px(xx, yy));
                assert(texs1[0].px(xx, yy) == bytes_pixel(circle@, 1024, xx, yy));
                assert(byte_of(circle@, 2 * CIRCLE_RADIUS as int, xx, yy, 0) == if in_disc(512, xx, yy) { 255u8 } else { 0u8 });
                assert(byte_of(circle@, 2 * CIRCLE_RADIUS as int, xx, yy, 1) == if in_disc(512, xx, yy) { 255u8 } else { 0u8 });
                assert(byte_of(circle@, 2 * CIRCLE_RADIUS as int, xx, yy, 2) == if in_disc(512, xx, yy) { 255u8 } else { 0u8 });
                assert(byte_of(circle@, 2 * CIRCLE_RADIUS as int, xx, yy, 3) == if in_disc(512, xx, yy) { 255u8 } else { 0u8 });
            }
            assert forall|x: int, y: int| 1030 <= x < 2054 && 2 <= y < 1026 implies #[trigger] img1.px(x, y) == mask_pixel(in_ring(512, x - 1030, y - 2)) by {
                let xx = x - 1030;
                let yy = y - 2;
                assert(img1.in_bounds(x, y));
                assert(1int % 3 == 1 && 1int / 3 == 0);
                assert(slot_x0(1, 3, 1028) == 1030 && slot_y0(1, 3, 1028) == 2);
                lemma_inside_slot(texs1, 1, 3, 1028, 1028, x, y);
                assert(texs1[1].in_bounds(xx, yy));
                assert(img1.px(x, y) == texs1[1].px(xx, yy));
                assert(texs1[1].px(xx, yy) == bytes_pixel(hcircle@, 1024, xx, yy));
                assert(byte_of(hcircle@, 2 * CIRCLE_RADIUS as int, xx, yy, 0) == if in_ring(512, xx, yy) { 255u8 } else { 0u8 });
                assert(byte_of(hcircle@, 2 * CIRCLE_RADIUS as int, xx, yy, 1) == if in_ring(512, xx, yy) { 255u8 } else { 0u8 });
                assert(byte_of(hcircle@, 2 * CIRCLE_RADIUS as int, xx, yy, 2) == if in_ring(512, xx, yy) { 255u8 } else { 0u8 });
                assert(byte_of(hcircle@, 2 * CIRCLE_RADIUS as int, xx, yy, 3) == if in_ring(512, xx, yy) { 255u8 } else { 0u8 });
            }
            assert forall|a: int, b: int| texs1[0].in_bounds(a, b) implies #[trigger] texs1[0].px(a, b)
                == builtin_texel(TextureKind::Circle, a, b) by {
                assert(texs1[0].px(a, b) == bytes_pixel(circle@, 1024, a, b));
                assert(byte_of(circle@, 2 * CIRCLE_RADIUS as int, a, b, 0) == if in_disc(512, a, b) { 255u8 } else { 0u8 });
                assert(byte_of(circle@, 2 * CIRCLE_RADIUS as int, a, b, 1) == if in_disc(512, a, b) { 255u8 } else { 0u8 });
                assert(byte_of(circle@, 2 * CIRCLE_RADIUS as int, a, b, 2) == if in_disc(512, a, b) { 255u8 } else { 0u8 });
                assert(byte_of(circle@, 2 * CIRCLE_RADIUS as int, a, b, 3) == if in_disc(512, a, b) { 255u8 } else { 0u8 });
            }
            assert forall|a: int, b: int| texs1[1].in_bounds(a, b) implies #[trigger] texs1[1].px(a, b)
                == builtin_texel(TextureKind::Hollow, a, b) by {
                assert(texs1[1].px(a, b) == bytes_pixel(hcircle@, 1024, a, b));
                assert(byte_of(hcircle@, 2 * CIRCLE_RADIUS as int, a, b, 0) == if in_ring(512, a, b) { 255u8 } else { 0u8 });
                assert(byte_of(hcircle@, 2 * CIRCLE_RADIUS as int, a, b, 1) == if in_ring(512, a, b) { 255u8 } else { 0u8 });
                assert(byte_of(hcircle@, 2 * CIRCLE_RADIUS as int, a, b, 2) == if in_ring(512, a, b) { 255u8 } else { 0u8 });
                assert(byte_of(hcircle@, 2 * CIRCLE_RADIUS as int, a, b, 3) == if in_ring(512, a, b) { 255u8 } else { 0u8 });
            }
            assert forall|x: int, y: int| 0 <= x < 4096 && 0 <= y < 4096 implies #[trigger] img1.px(x, y)
                == circle_atlas_pixel(x, y) by {
                assert(img1.in_bounds(x, y));
                lemma_padded_builtin(texs1[0], TextureKind::Circle, 2, 2, x, y);
                lemma_padded_builtin(texs1[1], TextureKind::Hollow, 1030, 2, x, y);
                if y < 1028 {
                    if x < 1028 {
                        assert(x / 1028 == 0 && y / 1028 == 0);
                    } else if x < 2056 {
                        assert(x / 1028 == 1 && y / 1028 == 0);
                    } else {
                        assert(x / 1028 >= 2 && y / 1028 == 0);
                    }
                } else {
                    assert(y / 1028 >= 1);
                }
            }
            assert(this.atlases@[0].uvs@ =~= seq![
                UvRect { x0: 2, y0: 2, x1: 6, y1: 6, side: 16 },
                UvRect { x0: 10, y0: 2, x1: 12, y1: 4, side: 16 },
            ]);
            assert(this.atlases@[1].uvs@ =~= seq![
                UvRect { x0: 2, y0: 2, x1: 1026, y1: 1026, side: 4096 },
                UvRect { x0: 1030, y0: 2, x1: 2054, y1: 1026, side: 4096 },
            ]);
        }
        images.push(img1);
        (this, images)
    }
}

} // verus!

verus! {

/// What a texture shows, as named in the object editor.
#[derive(PartialEq, Eq, Structural, Clone, Copy, Debug)]
pub enum TextureKind {
    White,
    NoTexture,
    Circle,
    Hollow,
    Image,
}

/// Tells the built-in textures apart from loaded images.
pub fn texture_kind(t: Texture) -> (k: TextureKind)
    ensures
        k == if t == Texture(0, 0) {
            TextureKind::White
        } else if t == Texture(0, 1) {
            TextureKind::NoTexture
        } else if t == Texture(1, 0) {
            TextureKind::Circle
        } else if t == Texture(1, 1) {
            TextureKind::Hollow
        } else {
            TextureKind::Image
        },
{
    if t == Texture::white() {
        TextureKind::White
    } else if t == Texture::no_texture() {
        TextureKind::NoTexture
    } else if t == Texture::circle() {
        TextureKind::Circle
    } else if t == Texture::hcircle() {
        TextureKind::Hollow
    } else {
        TextureKind::Image
    }
}

/// In an atlas laid out by `finalize`, every texture appears unchanged at
/// the rectangle recorded for it, and that rectangle lies inside the atlas.
pub proof fn textures_appear_at_their_rects(
    texs: Seq<RgbaBuffer>,
    cols: int,
    rows: int,
    cw: int,
    ch: int,
    side: int,
    s: int,
    x: int,
    y: int,
)
    requires
        0 <= s < texs.len(),
        cols == side / cw,
        rows == side / ch,
        0 <= side <= u32::MAX,
        cols > 0,
        rows > 0,
        cols * rows >= texs.len(),
        forall|i: int| 0 <= i < texs.len() ==> (#[trigger] texs[i]).width + 2 * PADDING <= cw && texs[i].height + 2 * PADDING <= ch,
        0 <= x < texs[s].width,
        0 <= y < texs[s].height,
    ensures
        ({
            let r = slot_rect(texs, s, cols, cw, ch, side);
            &&& r.x1 <= side && r.y1 <= side
            &&& r.x1 - r.x0 == texs[s].width && r.y1 - r.y0 == texs[s].height
            &&& atlas_pixel(texs, cols, cw, ch, r.x0 + x, r.y0 + y) == texs[s].px(x, y)
        }),
{
    lemma_slot_in_grid(s, texs.len() as int, cols, rows);
    lemma_cells_inside(s % cols, cols, cw, side);
    lemma_cells_inside(s / cols, rows, ch, side);
    lemma_inside_slot(texs, s, cols, cw, ch, slot_x0(s, cols, cw) + x, slot_y0(s, cols, ch) + y);
    assert(0 <= slot_x0(s, cols, cw) + texs[s].width <= side);
    assert(0 <= slot_y0(s, cols, ch) + texs[s].height <= side);
}

proof fn lemma_apart(c1: int, c2: int, cw: int, w1: int)
    requires
        0 <= c1 < c2,
        0 <= w1,
        w1 + 2 * PADDING <= cw,
    ensures
        c1 * cw + PADDING + w1 <= c2 * cw + PADDING,
{
    assert(c1 * cw + cw <= c2 * cw) by (nonlinear_arith)
        requires
            c1 < c2,
            cw >= 0,
    ;
}

/// The rectangles `finalize` records for the textures of a builder whose
/// atlas fits: texture `k` lies in column `k % cols` and row `k / cols` of the
/// grid of cells, `PADDING` pixels into its cell, and is as wide and as high
/// as the texture; every rectangle lies inside the atlas, and the rectangles
/// of two different textures share no pixel.
pub proof fn recorded_rects_lie_apart(b: TextureAtlasBuilder, max_side: int, k1: int, k2: int)
    requires
        b.wf(),
        0 <= max_side <= u32::MAX,
        first_fit(b.textures.len() as int, b.cell_w(), b.cell_h(), max_side, 0) is Some,
        0 <= k1 < b.textures.len(),
        0 <= k2 < b.textures.len(),
    ensures
        ({
            let s = first_fit(b.textures.len() as int, b.cell_w(), b.cell_h(), max_side, 0).unwrap();
            let cols = s / b.cell_w();
            let r1 = slot_rect(b.textures@, k1, cols, b.cell_w(), b.cell_h(), s);
            let r2 = slot_rect(b.textures@, k2, cols, b.cell_w(), b.cell_h(), s);
            &&& r1.side == s
            &&& r1.x0 == (k1 % cols) * b.cell_w() + PADDING
            &&& r1.y0 == (k1 / cols) * b.cell_h() + PADDING
            &&& r1.x1 == r1.x0 + b.textures@[k1].width
            &&& r1.y1 == r1.y0 + b.textures@[k1].height
            &&& r1.x0 <= r1.x1 <= s
            &&& r1.y0 <= r1.y1 <= s
            &&& k1 != k2 ==> (r1.x1 <= r2.x0 || r2.x1 <= r1.x0 || r1.y1 <= r2.y0 || r2.y1 <= r1.y0)
        }),
{
    let n = b.textures.len() as int;
    let cw = b.cell_w();
    let ch = b.cell_h();
    let texs = b.textures@;
    lemma_first_fit_facts(n, cw, ch, max_side, 0);
    let s = first_fit(n, cw, ch, max_side, 0).unwrap();
    let cols = s / cw;
    let rows = s / ch;
    assert(grid_fits(n, cw, ch, s));
    assert(texs[k1].wf() && texs[k2].wf());
    lemma_slot_in_grid(k1, n, cols, rows);
    lemma_slot_in_grid(k2, n, cols, rows);
    lemma_cells_inside(k1 % cols, cols, cw, s);
    lemma_cells_inside(k1 / cols, rows, ch, s);
    lemma_cells_inside(k2 % cols, cols, cw, s);
    lemma_cells_inside(k2 / cols, rows, ch, s);
    let (c1, w1) = (k1 % cols, k1 / cols);
    let (c2, w2) = (k2 % cols, k2 / cols);
    if k1 != k2 {
        if c1 < c2 {
            lemma_apart(c1, c2, cw, texs[k1].width as int);
        } else if c2 < c1 {
            lemma_apart(c2, c1, cw, texs[k2].width as int);
        } else if w1 < w2 {
            lemma_apart(w1, w2, ch, texs[k1].height as int);
        } else {
            assert(w2 < w1);
            lemma_apart(w2, w1, ch, texs[k2].height as int);
        }
    }
}

/// Distinct textures of an atlas never share a pixel, border included.
pub proof fn atlas_slots_disjoint(
    texs: Seq<RgbaBuffer>,
    cols: int,
    cw: int,
    ch: int,
    s1: int,
    s2: int,
    x: int,
    y: int,
)
    requires
        0 <= s1 < texs.len(),
        0 <= s2 < texs.len(),
        s1 != s2,
        cols > 0,
        forall|i: int| 0 <= i < texs.len() ==> (#[trigger] texs[i]).width + 2 * PADDING <= cw && texs[i].height + 2 * PADDING <= ch,
    ensures
        !(in_padded_rect(texs[s1], slot_x0(s1, cols, cw), slot_y0(s1, cols, ch), x, y) && in_padded_rect(
            texs[s2],
            slot_x0(s2, cols, cw),
            slot_y0(s2, cols, ch),
            x,
            y,
        )),
{
    if in_padded_rect(texs[s1], slot_x0(s1, cols, cw), slot_y0(s1, cols, ch), x, y) && in_padded_rect(
        texs[s2],
        slot_x0(s2, cols, cw),
        slot_y0(s2, cols, ch),
        x,
        y,
    ) {
        lemma_pixel_in_slot(s1, cols, cw, ch, texs[s1].width as int, texs[s1].height as int, x, y);
        lemma_pixel_in_slot(s2, cols, cw, ch, texs[s2].width as int, texs[s2].height as int, x, y);
    }
}

} // verus!
