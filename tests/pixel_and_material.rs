use raytracer::{rgb_to_u32, MaterialType};

#[test]
fn packs_channels_as_rrggbb() {
    assert_eq!(rgb_to_u32(255, 128, 1), 0x00FF_8001);
    assert_eq!(rgb_to_u32(0, 0, 0), 0);
    assert_eq!(rgb_to_u32(255, 255, 255), 0x00FF_FFFF);
    assert_eq!(rgb_to_u32(0x12, 0x34, 0x56), 0x0012_3456);
}

#[test]
fn packing_wider_values_overlaps_bits() {
    assert_eq!(rgb_to_u32(256, 0, 0), 0x0100_0000);
    assert_eq!(rgb_to_u32(0, 0x1FF, 0), 0x0001_FF00);
}

#[test]
fn material_tags() {
    assert_eq!(MaterialType::lambertain().code(), 0);
    assert_eq!(MaterialType::metalic().code(), 1);
    assert_eq!(MaterialType::dielectric().code(), 2);
    assert_eq!(MaterialType::metalic(), MaterialType::metalic());
    assert_ne!(MaterialType::lambertain(), MaterialType::dielectric());
}
