//! Windowing over the unbounded grid of tile positions, with no tile values.
use vstd::prelude::*;
use crate::geometry::{count_tiles, lemma_window_span, tile_count, wrapped_offset, wrapped_offset_of};
use crate::laws::{lemma_positions_evenly_spaced, lemma_zero_scroll_starts_at_origin};

verus! {

/// Number of positions the unbounded windower produces.
pub open spec fn infinite_tile_count(display_size: int, tile_size: int, scroll: int) -> int {
    tile_count(display_size, tile_size, wrapped_offset(tile_size, scroll))
}

/// Position, relative to the viewport's leading edge, of the tile in slot
/// `tile_num` of the unbounded window.
pub open spec fn infinite_position(tile_size: int, scroll: int, tile_num: int) -> int {
    tile_size * tile_num - wrapped_offset(tile_size, scroll)
}

/// The leading-edge positions of the grid tiles that overlap a display of
/// `display_size` scrolled by `scroll`, in order.
pub fn iter_infinite_tiles(display_size: u64, tile_size: u64, scroll: i64) -> (positions: Vec<i128>)
    requires
        tile_size > 0,
    ensures
        positions.len() == infinite_tile_count(display_size as int, tile_size as int, scroll as int),
        forall|k: int|
            0 <= k < positions.len() ==> positions[k] == infinite_position(
                tile_size as int,
                scroll as int,
                k,
            ),
        forall|k: int| 0 <= k < positions.len() - 1 ==> #[trigger] positions[k + 1] - positions[k] == tile_size,
        scroll == 0 ==> positions[0] == 0,
{
    let offset = wrapped_offset_of(tile_size, scroll);
    let num_tiles = count_tiles(display_size, tile_size, offset as i128);
    let mut positions: Vec<i128> = Vec::new();
    let mut position: i128 = -(offset as i128);
    let mut tile_num: u64 = 0;
    while tile_num < num_tiles
        invariant
            tile_size > 0,
            offset == wrapped_offset(tile_size as int, scroll as int),
            offset < tile_size,
            num_tiles == tile_count(display_size as int, tile_size as int, offset as int),
            1 <= num_tiles,
            tile_num <= num_tiles,
            position == tile_size * tile_num - offset,
            positions.len() == tile_num,
            forall|k: int|
                0 <= k < tile_num ==> positions[k] == infinite_position(
                    tile_size as int,
                    scroll as int,
                    k,
                ),
        decreases num_tiles - tile_num,
    {
        proof {
            lemma_window_span(display_size as int, tile_size as int, offset as int, tile_num + 1);
            assert(tile_size * (tile_num + 1) == tile_size * tile_num + tile_size) by (nonlinear_arith);
        }
        positions.push(position);
        position = position + tile_size as i128;
        tile_num = tile_num + 1;
    }
    proof {
        assert forall|k: int| 0 <= k < positions.len() - 1 implies #[trigger] positions[k + 1] - positions[k]
            == tile_size by {
            lemma_positions_evenly_spaced(tile_size, scroll, k as nat);
        }
        lemma_zero_scroll_starts_at_origin(tile_size);
    }
    positions
}

} // verus!
