use brush_render::pack::{pack_rgba8, unpack_rgba8};

#[test]
fn pack_puts_red_in_low_byte() {
    assert_eq!(pack_rgba8([1, 2, 3, 4]), 0x0403_0201);
    assert_eq!(pack_rgba8([255, 0, 0, 255]), 0xff00_00ff);
    assert_eq!(pack_rgba8([0, 0, 0, 0]), 0);
    assert_eq!(pack_rgba8([255, 255, 255, 255]), u32::MAX);
}

#[test]
fn unpack_inverts_pack() {
    assert_eq!(unpack_rgba8(0x0403_0201), [1, 2, 3, 4]);
    for px in [[0u8, 0, 0, 0], [31, 0, 200, 255], [255, 128, 64, 1]] {
        assert_eq!(unpack_rgba8(pack_rgba8(px)), px);
    }
}

#[test]
fn packed_bytes_match_quantized_float_pixel() {
    // A float pixel quantized the way the packed output mode does it.
    let rgba = [0.123f32, 1.5, -0.2, 0.5];
    let bytes = rgba.map(|c| (c.clamp(0.0, 1.0) * 255.0).round() as u8);
    assert_eq!(bytes, [31, 255, 0, 128]);
    assert_eq!(pack_rgba8(bytes).to_le_bytes(), bytes);
}
