//! The offset and window arithmetic shared by both windowers.
use vstd::prelude::*;
use vstd::arithmetic::div_mod::{
    lemma_fundamental_div_mod, lemma_fundamental_div_mod_converse, lemma_mod_decreases,
    lemma_mod_pos_bound,
};

verus! {

/// `a / b` rounded up, for a positive `b`.
pub open spec fn ceil_div(a: int, b: int) -> int {
    (a + b - 1) / b
}

/// Index of the first tile that overlaps the viewport, clamped at zero: a
/// negative scroll starts at the first tile of the grid.
pub open spec fn first_tile(tile_size: int, scroll: int) -> int {
    if scroll > 0 {
        scroll / tile_size
    } else {
        0
    }
}

/// Number of whole tiles by which a negative scroll lies before the grid's
/// first tile; zero for a positive scroll.
pub open spec fn underflow(tile_size: int, scroll: int) -> int {
    if scroll > 0 {
        0
    } else {
        (-scroll) / tile_size
    }
}

/// `scroll` modulo `tile_size` with truncating division: its sign follows
/// `scroll`.
pub open spec fn truncated_offset(tile_size: int, scroll: int) -> int {
    if scroll >= 0 {
        scroll % tile_size
    } else {
        -((-scroll) % tile_size)
    }
}

/// `scroll` modulo `tile_size`, normalised into `[0, tile_size)`.
pub open spec fn wrapped_offset(tile_size: int, scroll: int) -> int {
    scroll % tile_size
}

/// Number of tile slots in a window whose first tile has been scrolled into
/// by `offset`: the first tile, plus as many tiles as it takes to cover the
/// rest of the display, the last one possibly in part.
pub open spec fn tile_count(display_size: int, tile_size: int, offset: int) -> int {
    let rest = display_size - (tile_size - offset);
    if rest > 0 {
        ceil_div(rest, tile_size) + 1
    } else {
        1
    }
}

/// Bounds of a rounded-up quotient of positive numbers.
pub proof fn lemma_ceil_div_bounds(a: int, b: int)
    requires
        a > 0,
        b > 0,
    ensures
        1 <= ceil_div(a, b) <= a,
        b * (ceil_div(a, b) - 1) < a,
{
    let y = a + b - 1;
    lemma_fundamental_div_mod(y, b);
    lemma_mod_pos_bound(y, b);
    let q = y / b;
    let r = y % b;
    assert(1 <= q <= a && b * (q - 1) < a) by (nonlinear_arith)
        requires
            y == b * q + r,
            0 <= r < b,
            y == a + b - 1,
            a > 0,
            b > 0,
    ;
}

/// The magnitude of `scroll`.
pub fn scroll_magnitude(scroll: i64) -> (m: u64)
    ensures
        m == if scroll >= 0 { scroll as int } else { -scroll },
{
    if scroll >= 0 {
        scroll as u64
    } else {
        (-(scroll + 1)) as u64 + 1
    }
}

/// Splits the scroll, measured in whole tiles, into the clamped index of the
/// first visible tile and the number of tiles it lies before the grid.
pub fn split_whole_tiles(tile_size: u64, scroll: i64) -> (r: (u64, u64))
    requires
        tile_size > 0,
    ensures
        r.0 == first_tile(tile_size as int, scroll as int),
        r.1 == underflow(tile_size as int, scroll as int),
{
    let whole = scroll_magnitude(scroll) / tile_size;
    if scroll > 0 {
        (whole, 0)
    } else {
        (0, whole)
    }
}

/// `scroll` modulo `tile_size`, truncating.
pub fn truncated_offset_of(tile_size: u64, scroll: i64) -> (r: i64)
    requires
        tile_size > 0,
    ensures
        r == truncated_offset(tile_size as int, scroll as int),
        -(tile_size as int) < r < tile_size,
{
    let m = scroll_magnitude(scroll);
    let part = m % tile_size;
    proof {
        lemma_mod_decreases(m as nat, tile_size as nat);
    }
    if scroll >= 0 {
        part as i64
    } else if part == 0 {
        0
    } else {
        -((part - 1) as i64) - 1
    }
}

/// `scroll` modulo `tile_size`, in `[0, tile_size)`.
pub fn wrapped_offset_of(tile_size: u64, scroll: i64) -> (r: u64)
    requires
        tile_size > 0,
    ensures
        r == wrapped_offset(tile_size as int, scroll as int),
        r < tile_size,
{
    let m = scroll_magnitude(scroll);
    let part = m % tile_size;
    if scroll >= 0 {
        part
    } else if part == 0 {
        proof {
            let t = tile_size as int;
            let q = (m as int) / t;
            lemma_fundamental_div_mod(m as int, t);
            assert(scroll == (-q) * t) by (nonlinear_arith)
                requires
                    m == t * q,
                    scroll == -m,
            ;
            lemma_fundamental_div_mod_converse(scroll as int, t, -q, 0);
        }
        0
    } else {
        proof {
            let t = tile_size as int;
            let q = (m as int) / t;
            lemma_fundamental_div_mod(m as int, t);
            assert(scroll == (-q - 1) * t + (t - part)) by (nonlinear_arith)
                requires
                    m == t * q + part,
                    scroll == -m,
            ;
            lemma_fundamental_div_mod_converse(scroll as int, t, -q - 1, t - part);
        }
        tile_size - part
    }
}

/// The window reaches at most one tile past the end of the display: every
/// slot up to the count starts within `display_size + 2 * tile_size` of the
/// first one.
pub proof fn lemma_window_span(display_size: int, tile_size: int, offset: int, k: int)
    requires
        display_size >= 0,
        tile_size > 0,
        -tile_size < offset < tile_size,
        0 <= k <= tile_count(display_size, tile_size, offset),
    ensures
        0 <= tile_size * k <= display_size + 2 * tile_size,
{
    let n = tile_count(display_size, tile_size, offset);
    let rest = display_size - (tile_size - offset);
    let c = n - 1;
    if rest > 0 {
        lemma_ceil_div_bounds(rest, tile_size);
        assert(c == ceil_div(rest, tile_size));
    } else {
        assert(c == 0);
    }
    assert(0 <= tile_size * k <= display_size + 2 * tile_size) by (nonlinear_arith)
        requires
            0 <= k <= c + 1,
            tile_size > 0,
            c == 0 || tile_size * (c - 1) < rest,
            rest < display_size,
            display_size >= 0,
    ;
}

/// Number of tile slots in the window, computed.
pub fn count_tiles(display_size: u64, tile_size: u64, offset: i128) -> (n: u64)
    requires
        tile_size > 0,
        -(tile_size as int) < offset < tile_size,
    ensures
        n == tile_count(display_size as int, tile_size as int, offset as int),
        n >= 1,
{
    let rest: i128 = display_size as i128 - (tile_size as i128 - offset);
    if rest > 0 {
        proof {
            lemma_ceil_div_bounds(rest as int, tile_size as int);
        }
        let t = tile_size as u128;
        let whole = ((rest as u128) + (t - 1)) / t;
        whole as u64 + 1
    } else {
        1
    }
}

} // verus!
