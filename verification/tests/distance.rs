use molasses::distance::squared_distance_field;
use molasses::envelope::lower_envelope;
use molasses::pixels::Image;

fn brute_force(data: &[u8], w: usize, h: usize) -> Vec<Vec<u128>> {
    let has_dark = data[..w * h].iter().any(|&p| p < 128);
    let seed = |x: usize, y: usize| {
        if has_dark {
            data[y * w + x] < 128
        } else {
            x == 0 || y == 0 || x == w - 1 || y == h - 1
        }
    };
    let mut out = vec![vec![0u128; w]; h];
    for y in 0..h {
        for x in 0..w {
            let mut best: Option<u128> = None;
            for j in 0..h {
                for i in 0..w {
                    if seed(i, j) {
                        let dx = x as i128 - i as i128;
                        let dy = y as i128 - j as i128;
                        let d = (dx * dx + dy * dy) as u128;
                        best = Some(best.map_or(d, |b| b.min(d)));
                    }
                }
            }
            out[y][x] = best.unwrap();
        }
    }
    out
}

fn pseudo_random(n: usize, seed: u64) -> Vec<u8> {
    let mut s = seed;
    (0..n)
        .map(|_| {
            s = s.wrapping_mul(6364136223846793005).wrapping_add(1442695040888963407);
            (s >> 56) as u8
        })
        .collect()
}

#[test]
fn single_dark_pixel_gives_squared_distances() {
    let mut data = vec![255u8; 5 * 4];
    data[1 * 5 + 2] = 0;
    let img = Image::new(&data, 5, 4);
    let (field, dark) = squared_distance_field(&img);
    assert!(dark);
    assert_eq!(field[1][2], 0);
    assert_eq!(field[0][0], 4 + 1);
    assert_eq!(field[3][4], 4 + 4);
    assert_eq!(field[3][0], 4 + 4);
    assert_eq!(field, brute_force(&data, 5, 4));
}

#[test]
fn threshold_is_strict() {
    // 128 is not dark, 127 is
    let data = vec![128u8, 255, 255, 127];
    let img = Image::new(&data, 4, 1);
    let (field, dark) = squared_distance_field(&img);
    assert!(dark);
    assert_eq!(field, vec![vec![9, 4, 1, 0]]);
}

#[test]
fn without_dark_pixels_the_border_is_the_source() {
    let data = vec![200u8; 5 * 5];
    let img = Image::new(&data, 5, 5);
    let (field, dark) = squared_distance_field(&img);
    assert!(!dark);
    assert_eq!(field[2][2], 4);
    assert_eq!(field[1][2], 1);
    assert_eq!(field[0][3], 0);
    assert_eq!(field, brute_force(&data, 5, 5));
}

#[test]
fn matches_brute_force_on_random_images() {
    for (k, &(w, h)) in [(1usize, 1usize), (7, 3), (9, 9), (16, 5), (12, 12)].iter().enumerate() {
        let raw = pseudo_random(w * h, k as u64 + 7);
        // make dark pixels rare
        let data: Vec<u8> = raw.iter().map(|&b| if b < 20 { 0 } else { 255 }).collect();
        let img = Image::new(&data, w as u32, h as u32);
        let (field, _) = squared_distance_field(&img);
        assert_eq!(field, brute_force(&data, w, h), "image {w}x{h}");
    }
}

#[test]
fn empty_image_has_no_rows() {
    let data: Vec<u8> = Vec::new();
    let img = Image::new(&data, 3, 0);
    let (field, dark) = squared_distance_field(&img);
    assert!(field.is_empty());
    assert!(!dark);
}

#[test]
fn lower_envelope_matches_minimum_of_parabolas() {
    let cases: Vec<Vec<i128>> = vec![
        vec![0],
        vec![5, 0, 7],
        vec![0, 100, 100, 100, 0],
        vec![9, 1, 4, 0, 16, 3, 3, 2],
        vec![1 << 66, 1 << 66, 0, 1 << 66],
    ];
    for f in cases {
        let d = lower_envelope(&f);
        for x in 0..f.len() {
            let expected = (0..f.len())
                .map(|i| f[i] + (x as i128 - i as i128).pow(2))
                .min()
                .unwrap();
            assert_eq!(d[x], expected, "f = {f:?}, x = {x}");
        }
    }
}

#[test]
fn image_reads_pixels_row_by_row() {
    let data = vec![1u8, 2, 3, 4, 5, 6];
    let img = Image::new(&data, 3, 2);
    assert_eq!(img.get_pixel(0, 0), 1);
    assert_eq!(img.get_pixel(2, 0), 3);
    assert_eq!(img.get_pixel(0, 1), 4);
    assert_eq!(img.get_pixel(2, 1), 6);
}

#[test]
fn tall_images_match_brute_force() {
    for (k, &(w, h)) in [(1usize, 6usize), (3, 7), (2, 11)].iter().enumerate() {
        let raw = pseudo_random(w * h, k as u64 + 31);
        let data: Vec<u8> = raw.iter().map(|&b| if b < 40 { 0 } else { 255 }).collect();
        let img = Image::new(&data, w as u32, h as u32);
        let (field, _) = squared_distance_field(&img);
        assert_eq!(field, brute_force(&data, w, h), "image {w}x{h}");
    }
}
