//! Which analyser bins a bar of the spectrum display covers.
use vstd::prelude::*;

verus! {

/// The number of bars the spectrum display draws.
pub const DISPLAY_BARS: usize = 128;

/// The bins that one display bar averages: the candidate bin indices, taken
/// from the bar's lower and upper frequency edges, are clamped to the `len`
/// bins of the spectrum; a bar whose clamped range is empty is not drawn.
pub fn bar_bins(bin_at_pos: usize, bin_at_next: usize, len: usize) -> (r: Option<(usize, usize)>)
    ensures
        r == (if vstd::math::min(bin_at_pos as int, len as int) < vstd::math::min(
            bin_at_next as int,
            len as int,
        ) {
            Some(
                (
                    vstd::math::min(bin_at_pos as int, len as int) as usize,
                    vstd::math::min(bin_at_next as int, len as int) as usize,
                ),
            )
        } else {
            None::<(usize, usize)>
        }),
{
    let start = if bin_at_pos < len {
        bin_at_pos
    } else {
        len
    };
    let end = if bin_at_next < len {
        bin_at_next
    } else {
        len
    };
    if start >= end {
        None
    } else {
        Some((start, end))
    }
}

/// A drawn bar covers a nonempty range of existing bins.
pub proof fn lemma_bar_bins_in_range(bin_at_pos: usize, bin_at_next: usize, len: usize)
    ensures
        ({
            let lo = vstd::math::min(bin_at_pos as int, len as int);
            let hi = vstd::math::min(bin_at_next as int, len as int);
            lo < hi ==> 0 <= lo < hi <= len
        }),
{
}

} // verus!
