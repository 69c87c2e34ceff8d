//! Spectrum rows as the plot's waterfall texture takes them.
use vstd::prelude::*;

verus! {

/// How many rows the plot's waterfall texture holds.
pub const STRIP_ROWS: u32 = 512;

/// The alignment, in bytes, of a row copied into a texture.
pub const ROW_ALIGNMENT: u32 = 256;

/// The texture width for `bins` bins: at least one bin (counted as a `u32`,
/// as the texture counts), rounded up to the copy alignment.
pub open spec fn width_for(bins: usize) -> int {
    let b = (if bins > 0 {
        bins
    } else {
        1
    }) as u32;
    (b + ROW_ALIGNMENT - 1) / (ROW_ALIGNMENT as int) * ROW_ALIGNMENT
}

/// The width of the waterfall texture for rows of `bins` bins.
pub fn history_width(bins: usize) -> (width: u32)
    requires
        ((if bins > 0 {
            bins
        } else {
            1
        }) as u32) <= u32::MAX - (ROW_ALIGNMENT - 1),
    ensures
        width == width_for(bins),
{
    let b = (if bins > 0 {
        bins
    } else {
        1
    }) as u32;
    (b + (ROW_ALIGNMENT - 1)) / ROW_ALIGNMENT * ROW_ALIGNMENT
}

/// A row of `width` bytes holding the first bins of `bins`: cut when longer,
/// padded with zeros when shorter.
pub fn padded_row(bins: &[u8], width: u32) -> (row: Vec<u8>)
    ensures
        row@.len() == width,
        forall|i: int| 0 <= i < width ==> #[trigger] row@[i] == if i < bins@.len() {
            bins@[i]
        } else {
            0u8
        },
{
    let mut row: Vec<u8> = Vec::new();
    let mut i: u32 = 0;
    while i < width
        invariant
            i <= width,
            row@.len() == i,
            forall|k: int| 0 <= k < i ==> #[trigger] row@[k] == if k < bins@.len() {
                bins@[k]
            } else {
                0u8
            },
        decreases width - i,
    {
        if (i as usize) < bins.len() {
            row.push(bins[i as usize]);
        } else {
            row.push(0);
        }
        i += 1;
    }
    row
}

} // verus!
