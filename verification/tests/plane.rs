use complex_plot::complex_plane::{axis_pixels, rgba_bytes};

#[test]
fn colour_bytes() {
    assert_eq!(rgba_bytes(0x11223344), [0x11, 0x22, 0x33, 0x44]);
    assert_eq!(rgba_bytes(0x000000ff), [0, 0, 0, 0xff]);
    let b = rgba_bytes(0x4286f4ff);
    let back = (b[0] as u32) << 24 | (b[1] as u32) << 16 | (b[2] as u32) << 8 | b[3] as u32;
    assert_eq!(back, 0x4286f4ff);
}

#[test]
fn axis_through_origin() {
    assert_eq!(
        axis_pixels(1, 1, 3),
        vec![(0, 1), (1, 1), (2, 1), (1, 0), (1, 1), (1, 2)]
    );
    assert_eq!(axis_pixels(4, 0, 2), vec![(0, 0), (1, 0), (2, 0), (3, 0), (4, 0), (4, 1)]);
}
