//! Windowing over a finite sequence of tile values.
use vstd::prelude::*;
use vstd::arithmetic::div_mod::lemma_fundamental_div_mod;
use crate::geometry::{
    count_tiles, first_tile, lemma_window_span, split_whole_tiles, tile_count, truncated_offset,
    truncated_offset_of, underflow,
};
use crate::laws::{lemma_positions_evenly_spaced, lemma_zero_scroll_starts_at_origin};

verus! {

/// Number of tile slots in the window of the finite windower.
pub open spec fn finite_tile_count(display_size: int, tile_size: int, scroll: int) -> int {
    tile_count(display_size, tile_size, truncated_offset(tile_size, scroll))
}

/// Number of pairs the finite windower produces from `len` source tiles: the
/// window's slots, cut short where the source runs out.
pub open spec fn finite_window_len(len: int, display_size: int, tile_size: int, scroll: int) -> int {
    let available = len - first_tile(tile_size, scroll);
    let slots = finite_tile_count(display_size, tile_size, scroll);
    if available <= 0 {
        0
    } else if available < slots {
        available
    } else {
        slots
    }
}

/// Position, relative to the viewport's leading edge, of the tile in slot
/// `tile_num` of a finite window.
pub open spec fn finite_position(tile_size: int, scroll: int, tile_num: int) -> int {
    tile_size * (tile_num + underflow(tile_size, scroll)) - truncated_offset(tile_size, scroll)
}

/// The tiles of `tiles` that overlap a display of `display_size` scrolled by
/// `scroll`, in order, each paired with the position of its leading edge
/// relative to the display's. The window starts at the first tile that
/// overlaps the display, or at the first tile of `tiles` when the scroll is
/// not positive, and ends early where `tiles` runs out.
pub fn iter_tiles<T>(tiles: Vec<T>, display_size: u64, tile_size: u64, scroll: i64) -> (window: Vec<
    (T, i128),
>)
    requires
        tile_size > 0,
    ensures
        window.len() == finite_window_len(
            tiles.len() as int,
            display_size as int,
            tile_size as int,
            scroll as int,
        ),
        forall|k: int|
            0 <= k < window.len() ==> (#[trigger] window[k]).0 == tiles[first_tile(
                tile_size as int,
                scroll as int,
            ) + k] && window[k].1 == finite_position(tile_size as int, scroll as int, k),
        forall|k: int|
            0 <= k < window.len() - 1 ==> #[trigger] window[k + 1].1 - window[k].1 == tile_size,
        tiles.len() < first_tile(tile_size as int, scroll as int) + finite_tile_count(
            display_size as int,
            tile_size as int,
            scroll as int,
        ) ==> window.len() == if tiles.len() > first_tile(tile_size as int, scroll as int) {
            tiles.len() - first_tile(tile_size as int, scroll as int)
        } else {
            0
        },
        scroll == 0 && window.len() > 0 ==> window[0].1 == 0,
{
    let (first, under) = split_whole_tiles(tile_size, scroll);
    let offset = truncated_offset_of(tile_size, scroll);
    let num_tiles = count_tiles(display_size, tile_size, offset as i128);
    let ghost source = tiles@;

    // The source tiles in the window, in order.
    let mut rest = tiles;
    let mut taken: Vec<T> = if (first as u128) < (rest.len() as u128) {
        rest.split_off(first as usize)
    } else {
        Vec::new()
    };
    if (num_tiles as u128) < (taken.len() as u128) {
        taken.truncate(num_tiles as usize);
    }
    let ghost in_window = taken@;
    assert(in_window.len() == finite_window_len(
        source.len() as int,
        display_size as int,
        tile_size as int,
        scroll as int,
    ));
    assert(forall|k: int|
        0 <= k < in_window.len() ==> in_window[k] == source[first + k]);

    // Move them into a stack, last tile at the bottom.
    let mut stack: Vec<T> = Vec::new();
    while taken.len() > 0
        invariant
            taken@ == in_window.subrange(0, taken.len() as int),
            stack.len() + taken.len() == in_window.len(),
            forall|i: int|
                0 <= i < stack.len() ==> stack[i] == in_window[in_window.len() - 1 - i],
        decreases taken.len(),
    {
        let tile = taken.pop().unwrap();
        stack.push(tile);
    }

    // Pop them back off in order, each with its position.
    let ghost t = tile_size as int;
    let ghost s = scroll as int;
    proof {
        let m = if s >= 0 { s } else { -s };
        lemma_fundamental_div_mod(m, t);
        assert(0 <= t * underflow(t, s) <= -s || t * underflow(t, s) == 0) by (nonlinear_arith)
            requires
                underflow(t, s) == 0 || (s <= 0 && m == -s && m == t * (m / t) + m % t
                    && underflow(t, s) == m / t && m % t >= 0),
        ;
    }
    let mut position: i128 = tile_size as i128 * under as i128 - offset as i128;
    let mut window: Vec<(T, i128)> = Vec::new();
    let mut tile_num: u64 = 0;
    while stack.len() > 0
        invariant
            tile_size == t,
            scroll == s,
            t > 0,
            offset == truncated_offset(t, s),
            -t < offset < t,
            under == underflow(t, s),
            0 <= t * under <= 0x8000_0000_0000_0000,
            num_tiles == tile_count(display_size as int, t, offset as int),
            in_window.len() <= num_tiles,
            window.len() == tile_num,
            stack.len() + window.len() == in_window.len(),
            forall|i: int|
                0 <= i < stack.len() ==> stack[i] == in_window[in_window.len() - 1 - i],
            position == finite_position(t, s, tile_num as int),
            forall|k: int|
                0 <= k < window.len() ==> (#[trigger] window[k]).0 == in_window[k]
                    && window[k].1 == finite_position(t, s, k),
        decreases stack.len(),
    {
        let tile = stack.pop().unwrap();
        window.push((tile, position));
        proof {
            let k = tile_num as int;
            lemma_window_span(display_size as int, t, offset as int, k + 1);
            lemma_positions_evenly_spaced(tile_size, scroll, k as nat);
            assert(t * (k + 1 + under) == t * (k + 1) + t * under) by (nonlinear_arith);
            assert(finite_position(t, s, k + 1) == position + t);
        }
        position = position + tile_size as i128;
        tile_num = tile_num + 1;
    }
    proof {
        assert forall|k: int| 0 <= k < window.len() - 1 implies #[trigger] window[k + 1].1
            - window[k].1 == tile_size by {
            lemma_positions_evenly_spaced(tile_size, scroll, k as nat);
        }
        lemma_zero_scroll_starts_at_origin(tile_size);
    }
    window
}

} // verus!
