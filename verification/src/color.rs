use vstd::prelude::*;

verus! {

/// The value that a packed colour holds when its four channels are `r`, `g`,
/// `b` and `a`, red in the most significant byte.
pub open spec fn packed_rgba(r: u8, g: u8, b: u8, a: u8) -> int {
    r * 0x100_0000 + g * 0x1_0000 + b * 0x100 + a
}

/// An 8-bit-per-channel RGBA colour packed into one `u32` (`0xRRGGBBAA`).
pub struct Color {
    pub packed: u32,
}

impl Color {

    /// Packs the four channels.
    pub fn new(r: u8, g: u8, b: u8, a: u8) -> (c: Self)
        ensures
            c.packed == packed_rgba(r, g, b, a),
    {
        let packed: u32 = ((r as u32) << 24u32) | ((g as u32) << 16u32) | ((b as u32) << 8u32) | (a as u32);
        assert(packed == (r as u32) * 0x100_0000u32 + (g as u32) * 0x1_0000u32 + (b as u32) * 0x100u32 + (a as u32)) by (bit_vector)
            requires
                packed == ((r as u32) << 24u32) | ((g as u32) << 16u32) | ((b as u32) << 8u32) | (a as u32),
        ;
        Color { packed }
    }

    /// An opaque colour: alpha is 255.
    pub fn rgb(r: u8, g: u8, b: u8) -> (c: Self)
        ensures
            c.packed == packed_rgba(r, g, b, 255),
    {
        Self::new(r, g, b, 255)
    }

    /// The red channel: the most significant byte.
    pub fn r(&self) -> (v: u8)
        ensures
            v == self.packed / 0x100_0000,
    {
        let p = self.packed;
        let v = ((p >> 24u32) & 0xFFu32) as u8;
        assert(((p >> 24u32) & 0xFFu32) == p / 0x100_0000u32) by (bit_vector);
        v
    }

    /// The green channel.
    pub fn g(&self) -> (v: u8)
        ensures
            v == (self.packed / 0x1_0000) % 256,
    {
        let p = self.packed;
        assert(((p >> 16u32) & 0xFFu32) == (p / 0x1_0000u32) % 256u32) by (bit_vector);
        ((p >> 16u32) & 0xFFu32) as u8
    }

    /// The blue channel.
    pub fn b(&self) -> (v: u8)
        ensures
            v == (self.packed / 0x100) % 256,
    {
        let p = self.packed;
        assert(((p >> 8u32) & 0xFFu32) == (p / 0x100u32) % 256u32) by (bit_vector);
        ((p >> 8u32) & 0xFFu32) as u8
    }

    /// The alpha channel: the least significant byte.
    pub fn a(&self) -> (v: u8)
        ensures
            v == self.packed % 256,
    {
        let p = self.packed;
        assert((p & 0xFFu32) == p % 256u32) by (bit_vector);
        (p & 0xFFu32) as u8
    }
}

/// Each getter gives back the channel that `new` packed.
pub proof fn lemma_channels_roundtrip(r: u8, g: u8, b: u8, a: u8)
    ensures
        packed_rgba(r, g, b, a) / 0x100_0000 == r,
        (packed_rgba(r, g, b, a) / 0x1_0000) % 256 == g,
        (packed_rgba(r, g, b, a) / 0x100) % 256 == b,
        packed_rgba(r, g, b, a) % 256 == a,
{
    let p = packed_rgba(r, g, b, a);
    assert(p / 0x100_0000 == r) by (nonlinear_arith)
        requires p == r * 0x100_0000 + g * 0x1_0000 + b * 0x100 + a, 0 <= r < 256, 0 <= g < 256, 0 <= b < 256, 0 <= a < 256;
    assert((p / 0x1_0000) % 256 == g) by (nonlinear_arith)
        requires p == r * 0x100_0000 + g * 0x1_0000 + b * 0x100 + a, 0 <= r < 256, 0 <= g < 256, 0 <= b < 256, 0 <= a < 256;
    assert((p / 0x100) % 256 == b) by (nonlinear_arith)
        requires p == r * 0x100_0000 + g * 0x1_0000 + b * 0x100 + a, 0 <= r < 256, 0 <= g < 256, 0 <= b < 256, 0 <= a < 256;
    assert(p % 256 == a) by (nonlinear_arith)
        requires p == r * 0x100_0000 + g * 0x1_0000 + b * 0x100 + a, 0 <= r < 256, 0 <= g < 256, 0 <= b < 256, 0 <= a < 256;
}

/// Packing the four channels of a colour gives the colour back.
pub proof fn lemma_pack_of_channels(c: Color)
    ensures
        packed_rgba(
            (c.packed / 0x100_0000) as u8,
            ((c.packed / 0x1_0000) % 256) as u8,
            ((c.packed / 0x100) % 256) as u8,
            (c.packed % 256) as u8,
        ) == c.packed,
{
    let p = c.packed as int;
    assert(p == (p / 0x100_0000) * 0x100_0000 + ((p / 0x1_0000) % 256) * 0x1_0000 + ((p / 0x100) % 256) * 0x100 + p % 256) by (nonlinear_arith)
        requires 0 <= p < 0x1_0000_0000;
}

} // verus!
