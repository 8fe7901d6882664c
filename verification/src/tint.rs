//! Background tints for renamed locals.
//!
//! Every occurrence of a duplicate group numbers its locals in the same way,
//! so painting a number in one color shows which local of one file stands for
//! which local of another.
use vstd::prelude::*;

verus! {

/// How many tints there are.
pub const PALETTE_LEN: usize = 10;

/// The tints, as 0xRRGGBB.
pub open spec fn palette() -> Seq<u32> {
    seq![
        0x4a3340u32,
        0x3a4a2fu32,
        0x2f3a52u32,
        0x523a2fu32,
        0x3a2f52u32,
        0x2f5252u32,
        0x524a2fu32,
        0x2f5240u32,
        0x4a2f52u32,
        0x403a52u32,
    ]
}

/// The tint of the local with a number, counted from one. The tints repeat
/// after the last one. Zero has the tint of one.
pub open spec fn tint(idx: int) -> u32 {
    if idx == 0 {
        palette()[0]
    } else {
        palette()[(idx - 1) % (PALETTE_LEN as int)]
    }
}

/// The tint of the local with a number, counted from one.
pub fn tint_for_placeholder(idx: u32) -> (r: u32)
    ensures
        r == tint(idx as int),
{
    let colors: [u32; PALETTE_LEN] = palette_dark();
    if idx == 0 {
        return colors[0];
    }
    let slot: usize = (idx - 1) as usize % PALETTE_LEN;
    colors[slot]
}

/// The tints, first slot first.
pub fn palette_dark() -> (r: [u32; PALETTE_LEN])
    ensures
        r@ == palette(),
{
    let r: [u32; PALETTE_LEN] = [
        0x4a3340,
        0x3a4a2f,
        0x2f3a52,
        0x523a2f,
        0x3a2f52,
        0x2f5252,
        0x524a2f,
        0x2f5240,
        0x4a2f52,
        0x403a52,
    ];
    assert(r@ =~= palette());
    r
}

/// The tints repeat after the last one.
pub proof fn law_tint_wraps(idx: int)
    requires
        idx > 0,
    ensures
        tint(idx + PALETTE_LEN) == tint(idx),
{
    assert((idx - 1 + PALETTE_LEN) % (PALETTE_LEN as int) == (idx - 1) % (PALETTE_LEN as int));
}

/// Numbers that are less than a palette apart have different tints.
pub proof fn law_tints_are_distinct(a: int, b: int)
    requires
        0 < a < b < a + PALETTE_LEN,
    ensures
        tint(a) != tint(b),
{
    let i = (a - 1) % (PALETTE_LEN as int);
    let j = (b - 1) % (PALETTE_LEN as int);
    assert(i != j);
    lemma_palette_distinct(i, j);
}

proof fn lemma_palette_distinct(i: int, j: int)
    requires
        0 <= i < PALETTE_LEN,
        0 <= j < PALETTE_LEN,
        i != j,
    ensures
        palette()[i] != palette()[j],
{
}

/// The first numbers have the tints of the palette, in its order, and zero that
/// of one.
pub proof fn law_palette()
    ensures
        tint(0) == 0x4a3340,
        tint(1) == 0x4a3340,
        tint(2) == 0x3a4a2f,
        tint(3) == 0x2f3a52,
        tint(4) == 0x523a2f,
        tint(5) == 0x3a2f52,
        tint(6) == 0x2f5252,
        tint(7) == 0x524a2f,
        tint(8) == 0x2f5240,
        tint(9) == 0x4a2f52,
        tint(10) == 0x403a52,
        PALETTE_LEN == 10,
{
}

} // verus!
