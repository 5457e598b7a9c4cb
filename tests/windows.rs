use tile_window::geometry::{count_tiles, split_whole_tiles, truncated_offset_of, wrapped_offset_of};
use tile_window::{iter_infinite_tiles, iter_tiles};

#[test]
fn infinite_zero_scroll_starts_at_origin() {
    assert_eq!(iter_infinite_tiles(25, 10, 0), vec![0, 10, 20]);
}

#[test]
fn infinite_positive_scroll_half_tile() {
    assert_eq!(iter_infinite_tiles(25, 10, 5), vec![-5, 5, 15]);
}

#[test]
fn infinite_negative_scroll_half_tile() {
    assert_eq!(iter_infinite_tiles(25, 10, -5), vec![-5, 5, 15]);
}

#[test]
fn finite_skips_scrolled_past_tiles() {
    let tiles = vec!['A', 'B', 'C', 'D', 'E'];
    assert_eq!(iter_tiles(tiles, 25, 10, 15), vec![('B', -5), ('C', 5), ('D', 15)]);
}

#[test]
fn finite_short_source_gives_short_window() {
    let tiles = vec!['A', 'B', 'C'];
    assert_eq!(iter_tiles(tiles, 25, 10, 15), vec![('B', -5), ('C', 5)]);
}

#[test]
fn finite_scrolled_past_the_end_is_empty() {
    let tiles = vec!['A', 'B', 'C'];
    assert_eq!(iter_tiles(tiles, 25, 10, 40), vec![]);
    assert_eq!(iter_tiles(vec!['A', 'B', 'C'], 25, 10, 30), vec![]);
}

#[test]
fn finite_empty_source_is_empty() {
    let tiles: Vec<u32> = Vec::new();
    assert_eq!(iter_tiles(tiles, 25, 10, 0), vec![]);
}

#[test]
fn finite_negative_scroll_keeps_first_tile_in_place() {
    // The display starts 5 units before the first tile.
    let tiles = vec![1, 2, 3, 4, 5];
    assert_eq!(iter_tiles(tiles, 25, 10, -5), vec![(1, 5), (2, 15)]);
}

#[test]
fn finite_negative_scroll_beyond_a_tile_counts_underflow() {
    // The display starts one and a half tiles before the first tile.
    let tiles = vec![1, 2, 3, 4, 5];
    assert_eq!(iter_tiles(tiles, 25, 10, -15), vec![(1, 15), (2, 25)]);
}

#[test]
fn finite_zero_scroll_starts_at_origin() {
    let tiles = vec![7, 8, 9, 10];
    assert_eq!(iter_tiles(tiles, 25, 10, 0), vec![(7, 0), (8, 10), (9, 20)]);
}

#[test]
fn empty_display_still_has_one_slot() {
    assert_eq!(iter_infinite_tiles(0, 10, 0), vec![0]);
    assert_eq!(iter_infinite_tiles(0, 10, 3), vec![-3]);
    assert_eq!(iter_tiles(vec!['x', 'y'], 0, 10, -5), vec![('x', 5)]);
    assert_eq!(iter_tiles(vec!['x', 'y'], 0, 10, 0), vec![('x', 0)]);
}

#[test]
fn infinite_negative_multiple_of_tile_matches_zero_scroll() {
    assert_eq!(iter_infinite_tiles(25, 10, -10), vec![0, 10, 20]);
    assert_eq!(iter_infinite_tiles(25, 10, -20), iter_infinite_tiles(25, 10, 0));
}

#[test]
fn infinite_exact_fit_has_no_extra_slot() {
    assert_eq!(iter_infinite_tiles(30, 10, 0), vec![0, 10, 20]);
    assert_eq!(iter_infinite_tiles(30, 10, 1), vec![-1, 9, 19, 29]);
}

#[test]
fn infinite_positions_evenly_spaced() {
    for scroll in [-37i64, -10, -1, 0, 1, 9, 10, 123] {
        let positions = iter_infinite_tiles(95, 7, scroll);
        assert!(!positions.is_empty());
        for pair in positions.windows(2) {
            assert_eq!(pair[1] - pair[0], 7);
        }
    }
}

#[test]
fn finite_positions_evenly_spaced() {
    for scroll in [-37i64, -10, -1, 0, 1, 9, 10, 40] {
        let window = iter_tiles((0..30).collect::<Vec<u32>>(), 95, 7, scroll);
        for pair in window.windows(2) {
            assert_eq!(pair[1].1 - pair[0].1, 7);
            assert_eq!(pair[1].0, pair[0].0 + 1);
        }
    }
}

#[test]
fn finite_positions_on_grid() {
    for scroll in [-37i64, -10, -1, 0, 1, 9, 10, 40] {
        let window = iter_tiles((0..30).collect::<Vec<i128>>(), 95, 7, scroll);
        for (index, position) in window {
            assert_eq!(position, 7 * index - scroll as i128);
        }
    }
}

#[test]
fn scroll_step_across_zero() {
    // One unit before zero the first tile shows one unit; at zero it is gone
    // and every tile moves up one slot, one unit closer.
    let before = iter_infinite_tiles(25, 10, -1);
    let after = iter_infinite_tiles(25, 10, 0);
    assert_eq!(before, vec![-9, 1, 11, 21]);
    assert_eq!(after, vec![0, 10, 20]);
    for k in 0..after.len() {
        assert_eq!(after[k], before[k + 1] - 1);
    }
    let later = iter_infinite_tiles(25, 10, 1);
    for k in 0..after.len() {
        assert_eq!(later[k], after[k] - 1);
    }
}

#[test]
fn finite_exhaustion_count() {
    // first tile 2, three slots, four source tiles: two pairs.
    let window = iter_tiles(vec![0, 1, 2, 3], 25, 10, 25);
    assert_eq!(window, vec![(2, -5), (3, 5)]);
}

#[test]
fn large_values_do_not_overflow() {
    let positions = iter_infinite_tiles(u64::MAX, u64::MAX, i64::MIN);
    let offset = (i64::MIN as i128).rem_euclid(u64::MAX as i128);
    assert_eq!(positions.len(), 2);
    assert_eq!(positions[0], -offset);
    assert_eq!(positions[1], u64::MAX as i128 - offset);
    let window = iter_tiles(vec![1u8, 2], u64::MAX, u64::MAX / 2, i64::MIN);
    assert_eq!(window, vec![(1, 1i128 << 63), (2, (1i128 << 63) + (u64::MAX / 2) as i128)]);
    let window = iter_tiles(vec![1u8, 2], 3, 1, i64::MAX);
    assert_eq!(window, vec![]);
}

#[test]
fn helpers_split_scroll() {
    assert_eq!(split_whole_tiles(10, 15), (1, 0));
    assert_eq!(split_whole_tiles(10, -15), (0, 1));
    assert_eq!(split_whole_tiles(10, 0), (0, 0));
    assert_eq!(truncated_offset_of(10, 15), 5);
    assert_eq!(truncated_offset_of(10, -15), -5);
    assert_eq!(wrapped_offset_of(10, -15), 5);
    assert_eq!(wrapped_offset_of(10, -10), 0);
    assert_eq!(count_tiles(25, 10, 5), 3);
    assert_eq!(count_tiles(25, 10, -5), 2);
    assert_eq!(count_tiles(0, 10, 0), 1);
}
