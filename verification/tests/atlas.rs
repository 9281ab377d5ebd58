use molasses::pixels::{Rgba, RgbaBuffer};
use molasses::textures::{
    atlas_grid, circle_masks, texture_kind, AtlasFormat, AtlasGrid, AtlasManager, Texture, TextureKind,
    UvRect, CIRCLE_RADIUS,
};

fn rgba(r: u8, g: u8, b: u8, a: u8) -> Rgba {
    Rgba { r, g, b, a }
}

#[test]
fn grid_takes_the_smallest_power_of_two_that_holds_all_cells() {
    assert_eq!(atlas_grid(2, 8, 8, 4096), Some(AtlasGrid { side: 16, cols: 2, rows: 2 }));
    assert_eq!(atlas_grid(4, 8, 8, 4096), Some(AtlasGrid { side: 16, cols: 2, rows: 2 }));
    assert_eq!(atlas_grid(5, 8, 8, 4096), Some(AtlasGrid { side: 32, cols: 4, rows: 4 }));
    assert_eq!(atlas_grid(1, 1, 1, 1), Some(AtlasGrid { side: 1, cols: 1, rows: 1 }));
    assert_eq!(atlas_grid(2, 1028, 1028, 8192), Some(AtlasGrid { side: 4096, cols: 3, rows: 3 }));
    assert_eq!(atlas_grid(3, 10, 20, 64), Some(AtlasGrid { side: 32, cols: 3, rows: 1 }));
}

#[test]
fn grid_is_none_when_nothing_fits() {
    assert_eq!(atlas_grid(2, 1028, 1028, 2048), None);
    assert_eq!(atlas_grid(1, 9, 9, 15), None);
    assert_eq!(atlas_grid(1, 9, 9, 16), Some(AtlasGrid { side: 16, cols: 1, rows: 1 }));
}

#[test]
fn register_names_textures_by_atlas_and_slot() {
    let manager = AtlasManager::new_empty();
    let mut b = manager.create_atlas(AtlasFormat::Rgba8Unorm);
    assert_eq!(b.id, 0);
    let t0 = b.register(1, 1, &[1, 2, 3, 4]);
    let t1 = b.register(2, 1, &[5, 6, 7, 8, 9, 10, 11, 12]);
    assert_eq!(t0, Texture(0, 0));
    assert_eq!(t1, Texture(0, 1));
    assert_eq!((b.max_w, b.max_h), (2, 1));
    assert_eq!(b.textures[1].get_pixel(1, 0), rgba(9, 10, 11, 12));
}

#[test]
fn finalize_places_pads_and_records_rects() {
    let mut manager = AtlasManager::new_empty();
    let mut b = manager.create_atlas(AtlasFormat::Rgba8UnormSrgb);
    // a 2x2 texture: red, green / blue, white
    let t0 = b.register(2, 2, &[255, 0, 0, 255, 0, 255, 0, 255, 0, 0, 255, 255, 255, 255, 255, 255]);
    let t1 = b.register(1, 1, &[9, 8, 7, 6]);
    let img: RgbaBuffer = b.finalize(&mut manager, 1024).unwrap();
    // cells are 6x6; two cells need a side of 16 (2 x 2 cells)
    assert_eq!((img.width, img.height), (16, 16));
    assert_eq!(manager.atlases.len(), 1);
    assert_eq!(manager.atlases[0].side, 16);
    assert_eq!(manager.get_uv(t0), UvRect { x0: 2, y0: 2, x1: 4, y1: 4, side: 16 });
    assert_eq!(manager.get_uv(t1), UvRect { x0: 8, y0: 2, x1: 9, y1: 3, side: 16 });
    // the texture itself
    assert_eq!(img.get_pixel(2, 2), rgba(255, 0, 0, 255));
    assert_eq!(img.get_pixel(3, 2), rgba(0, 255, 0, 255));
    assert_eq!(img.get_pixel(2, 3), rgba(0, 0, 255, 255));
    assert_eq!(img.get_pixel(3, 3), rgba(255, 255, 255, 255));
    // its border repeats the edge with alpha zero, corners included
    assert_eq!(img.get_pixel(0, 2), rgba(255, 0, 0, 0));
    assert_eq!(img.get_pixel(1, 3), rgba(0, 0, 255, 0));
    assert_eq!(img.get_pixel(5, 3), rgba(255, 255, 255, 0));
    assert_eq!(img.get_pixel(3, 0), rgba(0, 255, 0, 0));
    assert_eq!(img.get_pixel(0, 0), rgba(255, 0, 0, 0));
    assert_eq!(img.get_pixel(5, 5), rgba(255, 255, 255, 0));
    // the second texture and its border
    assert_eq!(img.get_pixel(8, 2), rgba(9, 8, 7, 6));
    assert_eq!(img.get_pixel(6, 0), rgba(9, 8, 7, 0));
    assert_eq!(img.get_pixel(10, 4), rgba(9, 8, 7, 0));
    // outside every border
    assert_eq!(img.get_pixel(11, 2), rgba(0, 0, 0, 0));
    assert_eq!(img.get_pixel(15, 15), rgba(0, 0, 0, 0));
}

#[test]
fn finalize_without_textures_changes_nothing() {
    let mut manager = AtlasManager::new_empty();
    let b = manager.create_atlas(AtlasFormat::Rgba8Unorm);
    assert!(b.finalize(&mut manager, 1024).is_none());
    assert_eq!(manager.atlases.len(), 0);
}

#[test]
fn finalize_replaces_an_atlas_with_the_same_id() {
    let mut manager = AtlasManager::new_empty();
    let mut b = manager.create_atlas(AtlasFormat::Rgba8Unorm);
    b.register(1, 1, &[1, 1, 1, 1]);
    let b2 = molasses::textures::TextureAtlasBuilder {
        max_w: 0,
        max_h: 0,
        id: 0,
        textures: Vec::new(),
        data_format: AtlasFormat::Rgba8Unorm,
    };
    b.finalize(&mut manager, 64).unwrap();
    let mut b2 = b2;
    b2.register(3, 1, &[0; 12]);
    b2.finalize(&mut manager, 64).unwrap();
    assert_eq!(manager.atlases.len(), 1);
    assert_eq!(manager.atlases[0].side, 8);
    assert_eq!(manager.get_uv(Texture(0, 0)), UvRect { x0: 2, y0: 2, x1: 5, y1: 3, side: 8 });
}

#[test]
fn zero_sized_texture_leaves_its_cell_clear() {
    let mut manager = AtlasManager::new_empty();
    let mut b = manager.create_atlas(AtlasFormat::Rgba8Unorm);
    let t = b.register(0, 3, &[]);
    b.register(1, 1, &[5, 5, 5, 5]);
    let img = b.finalize(&mut manager, 64).unwrap();
    assert_eq!(manager.get_uv(t), UvRect { x0: 2, y0: 2, x1: 2, y1: 5, side: 16 });
    for y in 0..7 {
        for x in 0..5 {
            assert_eq!(img.get_pixel(x, y), rgba(0, 0, 0, 0));
        }
    }
}

#[test]
fn builtin_atlases() {
    let (manager, images) = AtlasManager::new(8192);
    assert_eq!(manager.atlases.len(), 2);
    assert_eq!(images.len(), 2);
    assert_eq!(manager.get_uv(Texture::white()), UvRect { x0: 2, y0: 2, x1: 6, y1: 6, side: 16 });
    assert_eq!(manager.get_uv(Texture::no_texture()), UvRect { x0: 10, y0: 2, x1: 12, y1: 4, side: 16 });
    assert_eq!(manager.get_uv(Texture::circle()), UvRect { x0: 2, y0: 2, x1: 1026, y1: 1026, side: 4096 });
    assert_eq!(manager.get_uv(Texture::hcircle()), UvRect { x0: 1030, y0: 2, x1: 2054, y1: 1026, side: 4096 });
    assert_eq!(images[0].get_pixel(3, 3), rgba(255, 255, 255, 255));
    assert_eq!(images[0].get_pixel(10, 2), rgba(227, 49, 239, 255));
    assert_eq!(images[0].get_pixel(11, 2), rgba(0, 0, 0, 255));
    // centre of the disc is filled, the centre of the ring is not
    assert_eq!(images[1].get_pixel(2 + 512, 2 + 512), rgba(255, 255, 255, 255));
    assert_eq!(images[1].get_pixel(1030 + 512, 2 + 512), rgba(0, 0, 0, 0));
    // a point at 300 pixels from the centre lies in both
    assert_eq!(images[1].get_pixel(2 + 812, 2 + 512), rgba(255, 255, 255, 255));
    assert_eq!(images[1].get_pixel(1030 + 812, 2 + 512), rgba(255, 255, 255, 255));
    // the corner lies in neither
    assert_eq!(images[1].get_pixel(2, 2), rgba(0, 0, 0, 0));
}

#[test]
fn builtin_atlas_borders_repeat_edges_without_alpha() {
    let (_, images) = AtlasManager::new(4096);
    assert_eq!(images[0].get_pixel(0, 0), rgba(255, 255, 255, 0));
    assert_eq!(images[0].get_pixel(7, 4), rgba(255, 255, 255, 0));
    assert_eq!(images[0].get_pixel(8, 0), rgba(227, 49, 239, 0));
    assert_eq!(images[0].get_pixel(13, 1), rgba(0, 0, 0, 0));
    assert_eq!(images[0].get_pixel(13, 5), rgba(227, 49, 239, 0));
    assert_eq!(images[0].get_pixel(14, 2), rgba(0, 0, 0, 0));
    assert_eq!(images[0].get_pixel(3, 9), rgba(0, 0, 0, 0));
    // the disc touches the middle of its left edge; the border repeats it
    assert_eq!(images[1].get_pixel(2, 2 + 512), rgba(255, 255, 255, 255));
    assert_eq!(images[1].get_pixel(0, 2 + 512), rgba(255, 255, 255, 0));
    assert_eq!(images[1].get_pixel(2100, 100), rgba(0, 0, 0, 0));
    assert_eq!(images[1].get_pixel(100, 2000), rgba(0, 0, 0, 0));
}

#[test]
fn circle_masks_follow_the_squared_distance() {
    let (disc, ring) = circle_masks(4);
    assert_eq!(disc.len(), 8 * 8 * 4);
    let at = |v: &Vec<u8>, x: usize, y: usize| v[(y * 8 + x) * 4];
    // centre (4, 4): in the disc, not in the ring
    assert_eq!(at(&disc, 4, 4), 255);
    assert_eq!(at(&ring, 4, 4), 0);
    // distance squared 16 at (0, 4): on the edge
    assert_eq!(at(&disc, 0, 4), 255);
    assert_eq!(at(&ring, 0, 4), 255);
    // distance squared 4 = r*r/4 at (2, 4): in the disc, not in the ring
    assert_eq!(at(&disc, 2, 4), 255);
    assert_eq!(at(&ring, 2, 4), 0);
    // distance squared 5 at (2, 3): in both
    assert_eq!(at(&ring, 2, 3), 255);
    // corner (0, 0): distance squared 32
    assert_eq!(at(&disc, 0, 0), 0);
    assert_eq!(CIRCLE_RADIUS, 512);
}

#[test]
fn texture_kinds_and_default() {
    assert_eq!(Texture::default(), Texture::white());
    assert_eq!(texture_kind(Texture(0, 0)), TextureKind::White);
    assert_eq!(texture_kind(Texture(0, 1)), TextureKind::NoTexture);
    assert_eq!(texture_kind(Texture(1, 0)), TextureKind::Circle);
    assert_eq!(texture_kind(Texture(1, 1)), TextureKind::Hollow);
    assert_eq!(texture_kind(Texture(2, 0)), TextureKind::Image);
}

#[test]
fn rgba_buffer_round_trips_bytes() {
    let bytes = vec![1u8, 2, 3, 4, 5, 6, 7, 8];
    let img = RgbaBuffer::from_raw(2, 1, &bytes).unwrap();
    assert_eq!(img.as_raw(), bytes);
    assert!(RgbaBuffer::from_raw(3, 1, &bytes).is_none());
    let mut canvas = RgbaBuffer::new(3, 2);
    canvas.copy_from(&img, 1, 1);
    assert_eq!(canvas.get_pixel(2, 1), rgba(5, 6, 7, 8));
    assert_eq!(canvas.get_pixel(0, 1), rgba(0, 0, 0, 0));
}

#[test]
fn recorded_rects_follow_the_grid_and_lie_apart() {
    let mut manager = AtlasManager::new_empty();
    let mut b = manager.create_atlas(AtlasFormat::Rgba8Unorm);
    let sizes = [(3, 2), (1, 1), (4, 4), (2, 3), (4, 1)];
    let textures: Vec<Texture> =
        sizes.iter().map(|&(w, h)| b.register(w, h, &vec![7u8; (w * h * 4) as usize])).collect();
    let img = b.finalize(&mut manager, 1024).unwrap();
    // cells are 8x8; five cells need a side of 32 (4 columns)
    assert_eq!(img.width, 32);
    let rects: Vec<UvRect> = textures.iter().map(|&t| manager.get_uv(t)).collect();
    for (k, (r, &(w, h))) in rects.iter().zip(sizes.iter()).enumerate() {
        let k = k as u32;
        assert_eq!((r.x0, r.y0), ((k % 4) * 8 + 2, (k / 4) * 8 + 2));
        assert_eq!((r.x1 - r.x0, r.y1 - r.y0), (w as u32, h as u32));
        assert!(r.x1 <= 32 && r.y1 <= 32 && r.side == 32);
    }
    for i in 0..rects.len() {
        for j in 0..rects.len() {
            if i != j {
                let (a, c) = (rects[i], rects[j]);
                assert!(a.x1 <= c.x0 || c.x1 <= a.x0 || a.y1 <= c.y0 || c.y1 <= a.y0);
            }
        }
    }
}
