use pathtracer::material_handle::MaterialHandle;
use pathtracer::texel::texel_offset;

#[test]
fn fresh_handles_are_one_based() {
    let h = MaterialHandle::for_new_entry(0);
    assert_eq!(h.0, 1);
    assert_eq!(h.index(), 0);
    let h = MaterialHandle::for_new_entry(41);
    assert_eq!(h.0, 42);
    assert_eq!(h.index(), 41);
}

#[test]
fn default_handle_is_unset() {
    let h = MaterialHandle::default();
    assert_eq!(h.0, 0);
}

#[test]
fn texel_offset_addresses_the_pixel() {
    // 10 x 5 image, 30 bytes per scanline.
    assert_eq!(texel_offset(3, 2, 10, 5, 30), 2 * 30 + 3 * 3);
    assert_eq!(texel_offset(0, 0, 10, 5, 30), 0);
    assert_eq!(texel_offset(9, 4, 10, 5, 30), 4 * 30 + 9 * 3);
}

#[test]
fn texel_offset_clamps_to_the_border() {
    assert_eq!(texel_offset(99, 99, 10, 5, 30), 4 * 30 + 9 * 3);
    assert_eq!(texel_offset(10, 2, 10, 5, 30), 2 * 30 + 9 * 3);
    assert!(texel_offset(usize::MAX, usize::MAX, 10, 5, 30) + 3 <= 150);
}

#[test]
fn texel_offset_respects_padded_scanlines() {
    // Stride larger than 3 * width still keeps every pixel in bounds.
    let width = 4;
    let height = 3;
    let stride = 16;
    for i in 0..width {
        for j in 0..height {
            let off = texel_offset(i, j, width, height, stride);
            assert_eq!(off, j * stride + i * 3);
            assert!(off + 3 <= height * stride);
        }
    }
}
