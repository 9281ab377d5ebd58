use vstd::prelude::*;
use crate::envelope::{lower_envelope, is_envelope_value, parab, cost_bound};
use crate::pixels::{Image, pixel_index};

verus! {

/// Pixels darker than this threshold are the obstacles that the field flows from.
pub const DARK_THRESHOLD: u8 = 128;

/// Cost given to pixels that are not seeds: more than any squared distance
/// inside an image whose pixels can be addressed with 32-bit indices.
pub open spec fn far_cost() -> int {
    0x4_0000_0000_0000_0000
}

pub open spec fn is_dark(data: Seq<u8>, w: int, i: int, j: int) -> bool {
    data[pixel_index(w, i, j)] < DARK_THRESHOLD
}

/// The image holds at least one dark pixel.
pub open spec fn has_dark(data: Seq<u8>, w: int, h: int) -> bool {
    exists|i: int, j: int| 0 <= i < w && 0 <= j < h && #[trigger] is_dark(data, w, i, j)
}

pub open spec fn on_border(w: int, h: int, i: int, j: int) -> bool {
    i == 0 || j == 0 || i == w - 1 || j == h - 1
}

/// The pixels distances are measured from: the dark pixels, or the border of
/// the image when it has none.
pub open spec fn is_seed(data: Seq<u8>, w: int, h: int, i: int, j: int) -> bool {
    if has_dark(data, w, h) {
        is_dark(data, w, i, j)
    } else {
        on_border(w, h, i, j)
    }
}

pub open spec fn sq_dist(x: int, y: int, i: int, j: int) -> int {
    (x - i) * (x - i) + (y - j) * (y - j)
}

/// `d` is the squared Euclidean distance from `(x, y)` to its nearest seed.
pub open spec fn is_nearest_seed_sq(data: Seq<u8>, w: int, h: int, x: int, y: int, d: int) -> bool {
    &&& forall|i: int, j: int|
        0 <= i < w && 0 <= j < h && is_seed(data, w, h, i, j) ==> d <= #[trigger] sq_dist(x, y, i, j)
    &&& exists|i: int, j: int|
        0 <= i < w && 0 <= j < h && is_seed(data, w, h, i, j) && d == #[trigger] sq_dist(x, y, i, j)
}

pub open spec fn seed_cost(data: Seq<u8>, w: int, h: int, i: int, j: int) -> int {
    if is_seed(data, w, h, i, j) {
        0
    } else {
        far_cost()
    }
}

/// Valid inputs: every pixel is in the buffer and addressable with a 32-bit
/// index, and an image with rows has columns.
pub open spec fn field_input_ok(data: Seq<u8>, w: int, h: int) -> bool {
    &&& 0 <= w
    &&& 0 <= h
    &&& w == 0 ==> h == 0
    &&& w * h <= data.len()
    &&& w * h <= 0x1_0000_0000
}

proof fn lemma_index_in_bounds(w: int, h: int, i: int, j: int)
    requires
        0 <= i < w,
        0 <= j < h,
    ensures
        0 <= pixel_index(w, i, j) < w * h,
        pixel_index(w, i, j) <= w * h - 1,
{
    assert(0 <= j * w + i < w * h) by (nonlinear_arith)
        requires
            0 <= i < w,
            0 <= j < h,
    ;
}

proof fn lemma_dims_bound(w: int, h: int)
    requires
        1 <= h,
        1 <= w,
        w * h <= 0x1_0000_0000,
    ensures
        w <= 0x1_0000_0000,
        h <= 0x1_0000_0000,
        (w - 1) * (w - 1) + (h - 1) * (h - 1) <= 0x2_0000_0000_0000_0000,
{
    assert(w <= w * h) by (nonlinear_arith)
        requires
            1 <= h,
            1 <= w,
    ;
    assert(h <= w * h) by (nonlinear_arith)
        requires
            1 <= h,
            1 <= w,
    ;
    assert((w - 1) * (w - 1) <= 0x1_0000_0000 * 0x1_0000_0000) by (nonlinear_arith)
        requires
            0 <= w - 1 <= 0x1_0000_0000,
    ;
    assert((h - 1) * (h - 1) <= 0x1_0000_0000 * 0x1_0000_0000) by (nonlinear_arith)
        requires
            0 <= h - 1 <= 0x1_0000_0000,
    ;
}

/// Squared distances stay within the image's squared diagonal.
proof fn lemma_sq_dist_bound(w: int, h: int, x: int, y: int, i: int, j: int)
    requires
        0 <= x < w,
        0 <= i < w,
        0 <= y < h,
        0 <= j < h,
    ensures
        0 <= sq_dist(x, y, i, j) <= (w - 1) * (w - 1) + (h - 1) * (h - 1),
{
    assert((x - i) * (x - i) <= (w - 1) * (w - 1)) by (nonlinear_arith)
        requires
            -(w - 1) <= x - i <= w - 1,
    ;
    assert((y - j) * (y - j) <= (h - 1) * (h - 1)) by (nonlinear_arith)
        requires
            -(h - 1) <= y - j <= h - 1,
    ;
    assert(0 <= (x - i) * (x - i)) by (nonlinear_arith);
    assert(0 <= (y - j) * (y - j)) by (nonlinear_arith);
}

/// Looks for a dark pixel, scanning row by row.
fn find_dark(img: &Image) -> (found: bool)
    requires
        field_input_ok(img.data@, img.width as int, img.height as int),
    ensures
        found == has_dark(img.data@, img.width as int, img.height as int),
{
    let w = img.width;
    let h = img.height;
    let ghost data = img.data@;
    let mut found = false;
    let mut y: u32 = 0;
    while y < h
        invariant
            w == img.width,
            h == img.height,
            data == img.data@,
            field_input_ok(data, w as int, h as int),
            y <= h,
            found == exists|i: int, j: int| 0 <= i < w && 0 <= j < y && #[trigger] is_dark(data, w as int, i, j),
        decreases h - y,
    {
        let mut x: u32 = 0;
        while x < w
            invariant
                w == img.width,
                h == img.height,
                data == img.data@,
                field_input_ok(data, w as int, h as int),
                y < h,
                x <= w,
                found == ((exists|i: int, j: int| 0 <= i < w && 0 <= j < y && #[trigger] is_dark(data, w as int, i, j))
                    || exists|i: int| 0 <= i < x && #[trigger] is_dark(data, w as int, i, y as int)),
            decreases w - x,
        {
            proof {
                lemma_index_in_bounds(w as int, h as int, x as int, y as int);
            }
            if img.get_pixel(x, y) < DARK_THRESHOLD {
                found = true;
                assert(is_dark(data, w as int, x as int, y as int));
            }
            x = x + 1;
        }
        proof {
            if found {
                if !(exists|i: int, j: int| 0 <= i < w && 0 <= j < y && #[trigger] is_dark(data, w as int, i, j)) {
                    let i = choose|i: int| 0 <= i < w && #[trigger] is_dark(data, w as int, i, y as int);
                    assert(0 <= i < w && 0 <= y < y + 1 && is_dark(data, w as int, i, y as int));
                }
            } else {
                assert forall|i: int, j: int| 0 <= i < w && 0 <= j < y + 1 implies !#[trigger] is_dark(data, w as int, i, j) by {
                    if j == y {
                        assert(!is_dark(data, w as int, i, y as int));
                    }
                }
            }
        }
        y = y + 1;
    }
    found
}

/// Row `j` of the seed costs.
pub open spec fn cost_row(data: Seq<u8>, w: int, h: int, j: int) -> Seq<i128> {
    Seq::new(w as nat, |i: int| seed_cost(data, w, h, i, j) as i128)
}

/// Builds the seed costs of row `y`: zero at the seeds, `far_cost()` elsewhere.
fn seed_cost_row(img: &Image, has_dark_pixel: bool, y: u32) -> (row: Vec<i128>)
    requires
        field_input_ok(img.data@, img.width as int, img.height as int),
        has_dark_pixel == has_dark(img.data@, img.width as int, img.height as int),
        y < img.height,
    ensures
        row@ == cost_row(img.data@, img.width as int, img.height as int, y as int),
{
    let w = img.width;
    let h = img.height;
    let ghost data = img.data@;
    let mut row: Vec<i128> = Vec::new();
    let mut x: u32 = 0;
    while x < w
        invariant
            w == img.width,
            h == img.height,
            data == img.data@,
            field_input_ok(data, w as int, h as int),
            has_dark_pixel == has_dark(data, w as int, h as int),
            y < h,
            x <= w,
            row.len() == x,
            forall|i: int| 0 <= i < x ==> row@[i] == seed_cost(data, w as int, h as int, i, y as int),
        decreases w - x,
    {
        proof {
            lemma_index_in_bounds(w as int, h as int, x as int, y as int);
        }
        let seed = if has_dark_pixel {
            img.get_pixel(x, y) < DARK_THRESHOLD
        } else {
            x == 0 || y == 0 || x == w - 1 || y == h - 1
        };
        let c: i128 = if seed { 0 } else { 0x4_0000_0000_0000_0000 };
        row.push(c);
        x = x + 1;
    }
    assert(row@ =~= cost_row(data, w as int, h as int, y as int));
    row
}

} // verus!

verus! {

pub open spec fn column_of(rows: Seq<Vec<i128>>, x: int) -> Seq<i128> {
    Seq::new(rows.len(), |j: int| rows[j]@[x])
}

/// Squaring along the columns the squared distances along the rows gives the
/// squared distance to the nearest seed.
proof fn lemma_two_passes(data: Seq<u8>, w: int, h: int, x: int, y: int, col: Seq<i128>, val: int)
    requires
        field_input_ok(data, w, h),
        1 <= h,
        0 <= x < w,
        0 <= y < h,
        col.len() == h,
        forall|j: int| 0 <= j < h ==> is_envelope_value(cost_row(data, w, h, j), x, #[trigger] col[j] as int),
        is_envelope_value(col, y, val),
    ensures
        is_nearest_seed_sq(data, w, h, x, y, val),
{
    lemma_dims_bound(w, h);
    // some seed exists
    let (si, sj) = if has_dark(data, w, h) {
        choose|i: int, j: int| 0 <= i < w && 0 <= j < h && #[trigger] is_dark(data, w, i, j)
    } else {
        (0int, 0int)
    };
    assert(0 <= si < w && 0 <= sj < h && is_seed(data, w, h, si, sj));
    assert forall|i: int, j: int| 0 <= i < w && 0 <= j < h && is_seed(data, w, h, i, j) implies val
        <= #[trigger] sq_dist(x, y, i, j) by {
        assert(val <= parab(col, j, y));
        let row = cost_row(data, w, h, j);
        assert(is_envelope_value(row, x, col[j] as int));
        assert(col[j] <= parab(row, i, x));
        assert(row[i] == 0);
    }
    let jj = choose|j: int| 0 <= j < col.len() && val == #[trigger] parab(col, j, y);
    let row = cost_row(data, w, h, jj);
    assert(is_envelope_value(row, x, col[jj] as int));
    let ii = choose|i: int| 0 <= i < row.len() && col[jj] as int == #[trigger] parab(row, i, x);
    assert(val == seed_cost(data, w, h, ii, jj) + sq_dist(x, y, ii, jj));
    lemma_sq_dist_bound(w, h, x, y, si, sj);
    assert(val <= sq_dist(x, y, si, sj));
    assert(0 <= (x - ii) * (x - ii)) by (nonlinear_arith);
    assert(0 <= (y - jj) * (y - jj)) by (nonlinear_arith);
    assert(is_seed(data, w, h, ii, jj));
    assert(0 <= ii < w && 0 <= jj < h && is_seed(data, w, h, ii, jj) && val == sq_dist(x, y, ii, jj));
}

/// Squared Euclidean distance from every pixel to the nearest seed: the dark
/// pixels (below `DARK_THRESHOLD`), or the image border when there are none.
/// Rows come first, pixels within a row after. The second component tells
/// whether the image holds a dark pixel. Computed exactly, as a
/// one-dimensional transform along every row followed by one along every
/// column.
pub fn squared_distance_field(img: &Image) -> (res: (Vec<Vec<u128>>, bool))
    requires
        field_input_ok(img.data@, img.width as int, img.height as int),
    ensures
        res.1 == has_dark(img.data@, img.width as int, img.height as int),
        res.0.len() == img.height,
        forall|y: int| 0 <= y < img.height ==> (#[trigger] res.0[y]).len() == img.width,
        forall|x: int, y: int|
            0 <= x < img.width && 0 <= y < img.height ==> is_nearest_seed_sq(
                img.data@,
                img.width as int,
                img.height as int,
                x,
                y,
                #[trigger] res.0[y][x] as int,
            ),
{
    let w = img.width;
    let h = img.height;
    let ghost data = img.data@;
    let dark = find_dark(img);
    if h == 0 {
        return (Vec::new(), dark);
    }
    proof {
        lemma_dims_bound(w as int, h as int);
    }
    // along the rows
    let mut rows: Vec<Vec<i128>> = Vec::new();
    let mut y: u32 = 0;
    while y < h
        invariant
            w == img.width,
            h == img.height,
            data == img.data@,
            field_input_ok(data, w as int, h as int),
            1 <= h <= 0x1_0000_0000,
            1 <= w <= 0x1_0000_0000,
            dark == has_dark(data, w as int, h as int),
            y <= h,
            rows.len() == y,
            forall|j: int| 0 <= j < y ==> (#[trigger] rows@[j]).len() == w,
            forall|j: int, x: int|
                0 <= j < y && 0 <= x < w ==> is_envelope_value(
                    cost_row(data, w as int, h as int, j),
                    x,
                    #[trigger] rows@[j]@[x] as int,
                ),
        decreases h - y,
    {
        let costs = seed_cost_row(img, dark, y);
        let d = lower_envelope(&costs);
        rows.push(d);
        y = y + 1;
    }
    // along the columns
    let mut cols: Vec<Vec<i128>> = Vec::new();
    let mut x: u32 = 0;
    while x < w
        invariant
            w == img.width,
            h == img.height,
            data == img.data@,
            field_input_ok(data, w as int, h as int),
            1 <= h <= 0x1_0000_0000,
            1 <= w <= 0x1_0000_0000,
            rows.len() == h,
            forall|j: int| 0 <= j < h ==> (#[trigger] rows@[j]).len() == w,
            forall|j: int, x: int|
                0 <= j < h && 0 <= x < w ==> is_envelope_value(
                    cost_row(data, w as int, h as int, j),
                    x,
                    #[trigger] rows@[j]@[x] as int,
                ),
            x <= w,
            cols.len() == x,
            forall|i: int| 0 <= i < x ==> (#[trigger] cols@[i]).len() == h,
            forall|i: int, y: int|
                0 <= i < x && 0 <= y < h ==> is_envelope_value(
                    column_of(rows@, i),
                    y,
                    #[trigger] cols@[i]@[y] as int,
                ),
        decreases w - x,
    {
        let mut col: Vec<i128> = Vec::new();
        let mut j: usize = 0;
        while j < h as usize
            invariant
                w == img.width,
                h == img.height,
                data == img.data@,
                field_input_ok(data, w as int, h as int),
                1 <= h <= 0x1_0000_0000,
            1 <= w <= 0x1_0000_0000,
                rows.len() == h,
                forall|j: int| 0 <= j < h ==> (#[trigger] rows@[j]).len() == w,
                forall|j: int, x: int|
                    0 <= j < h && 0 <= x < w ==> is_envelope_value(
                        cost_row(data, w as int, h as int, j),
                        x,
                        #[trigger] rows@[j]@[x] as int,
                    ),
                x < w,
                j <= h,
                col.len() == j,
                forall|jj: int| 0 <= jj < j ==> #[trigger] col@[jj] == rows@[jj]@[x as int],
                forall|jj: int| 0 <= jj < j ==> 0 <= #[trigger] col@[jj] <= cost_bound(),
            decreases h - j,
        {
            let c = rows[j][x as usize];
            proof {
                let row = cost_row(data, w as int, h as int, j as int);
                assert(is_envelope_value(row, x as int, rows@[j as int]@[x as int] as int));
                assert(c <= parab(row, x as int, x as int));
                let i = choose|i: int| 0 <= i < row.len() && c as int == #[trigger] parab(row, i, x as int);
                assert(0 <= (x - i) * (x - i)) by (nonlinear_arith);
            }
            col.push(c);
            j = j + 1;
        }
        assert(col@ =~= column_of(rows@, x as int));
        let e = lower_envelope(&col);
        cols.push(e);
        x = x + 1;
    }
    // back to rows of the result
    let mut out: Vec<Vec<u128>> = Vec::new();
    let mut y: u32 = 0;
    while y < h
        invariant
            w == img.width,
            h == img.height,
            data == img.data@,
            field_input_ok(data, w as int, h as int),
            1 <= h <= 0x1_0000_0000,
            1 <= w <= 0x1_0000_0000,
            rows.len() == h,
            forall|j: int| 0 <= j < h ==> (#[trigger] rows@[j]).len() == w,
            forall|j: int, x: int|
                0 <= j < h && 0 <= x < w ==> is_envelope_value(
                    cost_row(data, w as int, h as int, j),
                    x,
                    #[trigger] rows@[j]@[x] as int,
                ),
            cols.len() == w,
            forall|i: int| 0 <= i < w ==> (#[trigger] cols@[i]).len() == h,
            forall|i: int, y: int|
                0 <= i < w && 0 <= y < h ==> is_envelope_value(
                    column_of(rows@, i),
                    y,
                    #[trigger] cols@[i]@[y] as int,
                ),
            y <= h,
            out.len() == y,
            forall|j: int| 0 <= j < y ==> (#[trigger] out@[j]).len() == w,
            forall|x: int, j: int|
                0 <= x < w && 0 <= j < y ==> is_nearest_seed_sq(
                    data,
                    w as int,
                    h as int,
                    x,
                    j,
                    #[trigger] out@[j]@[x] as int,
                ),
        decreases h - y,
    {
        let mut line: Vec<u128> = Vec::new();
        let mut x: u32 = 0;
        while x < w
            invariant
                w == img.width,
                h == img.height,
                data == img.data@,
                field_input_ok(data, w as int, h as int),
                1 <= h <= 0x1_0000_0000,
            1 <= w <= 0x1_0000_0000,
                rows.len() == h,
                forall|j: int| 0 <= j < h ==> (#[trigger] rows@[j]).len() == w,
                forall|j: int, x: int|
                    0 <= j < h && 0 <= x < w ==> is_envelope_value(
                        cost_row(data, w as int, h as int, j),
                        x,
                        #[trigger] rows@[j]@[x] as int,
                    ),
                cols.len() == w,
                forall|i: int| 0 <= i < w ==> (#[trigger] cols@[i]).len() == h,
                forall|i: int, y: int|
                    0 <= i < w && 0 <= y < h ==> is_envelope_value(
                        column_of(rows@, i),
                        y,
                        #[trigger] cols@[i]@[y] as int,
                    ),
                y < h,
                x <= w,
                line.len() == x,
                forall|i: int|
                    0 <= i < x ==> is_nearest_seed_sq(
                        data,
                        w as int,
                        h as int,
                        i,
                        y as int,
                        #[trigger] line@[i] as int,
                    ),
            decreases w - x,
        {
            let v = cols[x as usize][y as usize];
            proof {
                let col = column_of(rows@, x as int);
                assert forall|j: int| 0 <= j < h implies is_envelope_value(
                    cost_row(data, w as int, h as int, j),
                    x as int,
                    #[trigger] col[j] as int,
                ) by {
                    assert(col[j] == rows@[j]@[x as int]);
                }
                lemma_two_passes(data, w as int, h as int, x as int, y as int, col, v as int);
                let (ii, jj) = choose|i: int, j: int|
                    0 <= i < w && 0 <= j < h && is_seed(data, w as int, h as int, i, j) && v == #[trigger] sq_dist(x as int, y as int, i, j);
                lemma_sq_dist_bound(w as int, h as int, x as int, y as int, ii, jj);
            }
            line.push(v as u128);
            x = x + 1;
        }
        out.push(line);
        y = y + 1;
    }
    (out, dark)
}

} // verus!
