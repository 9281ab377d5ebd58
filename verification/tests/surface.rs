use molasses::surface::{pick_surface_format, surface_extent};

#[test]
fn first_srgb_format_is_preferred() {
    assert_eq!(pick_surface_format(&vec![false, true, true]), 1);
    assert_eq!(pick_surface_format(&vec![true, false]), 0);
    assert_eq!(pick_surface_format(&vec![false, false, false]), 0);
    assert_eq!(pick_surface_format(&vec![false]), 0);
}

#[test]
fn empty_windows_get_a_pixel() {
    assert_eq!(surface_extent(0, 0), (1, 1));
    assert_eq!(surface_extent(0, 540), (1, 540));
    assert_eq!(surface_extent(960, 540), (960, 540));
}
