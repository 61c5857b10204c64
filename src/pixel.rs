use vstd::prelude::*;

verus! {

/// Packs three colour channels into one framebuffer word as `0x00RRGGBB`:
/// red shifted up by sixteen bits, green by eight, blue in the low byte.
pub fn rgb_to_u32(r: u32, g: u32, b: u32) -> (packed: u32)
    ensures
        packed == ((r << 16u32) | (g << 8u32) | b),
        r < 256 && g < 256 && b < 256 ==> packed == r * 65536 + g * 256 + b,
        r < 256 && g < 256 && b < 256 ==> (packed >> 16u32) == r && ((packed >> 8u32) & 0xffu32)
            == g && (packed & 0xffu32) == b,
{
    let packed = (r << 16u32) | (g << 8u32) | b;
    if r < 256 && g < 256 && b < 256 {
        assert(packed == r * 65536 + g * 256 + b) by (bit_vector)
            requires
                packed == ((r << 16u32) | (g << 8u32) | b),
                r < 256 && g < 256 && b < 256,
        ;
        assert((packed >> 16u32) == r && ((packed >> 8u32) & 0xffu32) == g && (packed & 0xffu32)
            == b) by (bit_vector)
            requires
                packed == ((r << 16u32) | (g << 8u32) | b),
                r < 256 && g < 256 && b < 256,
        ;
    }
    packed
}

} // verus!
