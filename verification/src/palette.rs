use vstd::prelude::*;

verus! {

/// One 8-bit colour in the blue, green, red byte order of the frames.
#[derive(PartialEq, Eq, Structural, Clone, Copy, Debug)]
pub struct Bgr {
    pub b: u8,
    pub g: u8,
    pub r: u8,
}

/// Number of colours in the noise palette.
pub const PALETTE_LEN: usize = 16;

/// Position of white in the noise palette.
pub const WHITE_INDEX: usize = 1;

pub open spec fn bgr(b: u8, g: u8, r: u8) -> Bgr {
    Bgr { b, g, r }
}

/// White: the one colour that neighbours may share.
pub open spec fn white() -> Bgr {
    bgr(255, 255, 255)
}

/// The sixteen colours of the noise texture, in order.
pub open spec fn palette() -> Seq<Bgr> {
    seq![
        bgr(0, 0, 0), bgr(255, 255, 255), bgr(255, 0, 0), bgr(0, 255, 0),
        bgr(0, 0, 255), bgr(255, 255, 0), bgr(255, 0, 255), bgr(0, 255, 255),
        bgr(128, 128, 128), bgr(128, 0, 0), bgr(0, 128, 0), bgr(0, 0, 128),
        bgr(128, 128, 0), bgr(128, 0, 128), bgr(0, 128, 128), bgr(192, 192, 192),
    ]
}

/// A colour of the noise palette.
pub open spec fn in_palette(c: Bgr) -> bool {
    palette().contains(c)
}

/// White, as a value.
pub fn white_color() -> (c: Bgr)
    ensures
        c == white(),
{
    Bgr { b: 255, g: 255, r: 255 }
}

/// The noise palette, as a vector.
pub fn noise_palette() -> (p: Vec<Bgr>)
    ensures
        p@ == palette(),
{
    let mut p: Vec<Bgr> = Vec::new();
    p.push(Bgr { b: 0, g: 0, r: 0 });
    p.push(Bgr { b: 255, g: 255, r: 255 });
    p.push(Bgr { b: 255, g: 0, r: 0 });
    p.push(Bgr { b: 0, g: 255, r: 0 });
    p.push(Bgr { b: 0, g: 0, r: 255 });
    p.push(Bgr { b: 255, g: 255, r: 0 });
    p.push(Bgr { b: 255, g: 0, r: 255 });
    p.push(Bgr { b: 0, g: 255, r: 255 });
    p.push(Bgr { b: 128, g: 128, r: 128 });
    p.push(Bgr { b: 128, g: 0, r: 0 });
    p.push(Bgr { b: 0, g: 128, r: 0 });
    p.push(Bgr { b: 0, g: 0, r: 128 });
    p.push(Bgr { b: 128, g: 128, r: 0 });
    p.push(Bgr { b: 128, g: 0, r: 128 });
    p.push(Bgr { b: 0, g: 128, r: 128 });
    p.push(Bgr { b: 192, g: 192, r: 192 });
    assert(p@ =~= palette());
    p
}

/// The palette has its announced length, and white stands at its announced place.
pub proof fn lemma_palette_shape()
    ensures
        palette().len() == PALETTE_LEN,
        palette()[WHITE_INDEX as int] == white(),
{
}

/// No colour appears twice in the palette, so a colour names its index.
pub proof fn lemma_palette_distinct()
    ensures
        forall|i: int, j: int|
            0 <= i < PALETTE_LEN && 0 <= j < PALETTE_LEN && i != j ==> palette()[i] != palette()[j],
{
}

} // verus!
