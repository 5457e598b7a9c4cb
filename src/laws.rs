//! Properties that hold of every window.
use vstd::prelude::*;
use vstd::arithmetic::div_mod::{
    lemma_basic_div, lemma_fundamental_div_mod, lemma_fundamental_div_mod_converse,
    lemma_mod_bound, lemma_small_mod,
};
use crate::finite::{finite_position, finite_tile_count};
use crate::geometry::{
    first_tile, lemma_ceil_div_bounds, truncated_offset, underflow, wrapped_offset,
};
use crate::infinite::{infinite_position, infinite_tile_count};

verus! {

/// Consecutive tiles of a window, finite or unbounded, are placed exactly one
/// tile size apart.
pub proof fn lemma_positions_evenly_spaced(tile_size: u64, scroll: i64, tile_num: nat)
    requires
        tile_size > 0,
    ensures
        infinite_position(tile_size as int, scroll as int, tile_num + 1 as int) - infinite_position(
            tile_size as int,
            scroll as int,
            tile_num as int,
        ) == tile_size,
        finite_position(tile_size as int, scroll as int, tile_num + 1 as int) - finite_position(
            tile_size as int,
            scroll as int,
            tile_num as int,
        ) == tile_size,
{
    let t = tile_size as int;
    let u = underflow(t, scroll as int);
    assert(t * (tile_num + 1) == t * tile_num + t) by (nonlinear_arith);
    assert(t * (tile_num + 1 + u) == t * (tile_num + u) + t) by (nonlinear_arith);
}

/// With no scroll, the first tile of a window, finite or unbounded, starts
/// at the viewport's leading edge.
pub proof fn lemma_zero_scroll_starts_at_origin(tile_size: u64)
    requires
        tile_size > 0,
    ensures
        infinite_position(tile_size as int, 0, 0) == 0,
        finite_position(tile_size as int, 0, 0) == 0,
{
    let t = tile_size as int;
    lemma_small_mod(0, t as nat);
    lemma_basic_div(0, t);
    assert(t * 0 == 0);
}

/// Whatever the display size and the scroll, a window has at least one tile
/// slot.
pub proof fn lemma_window_never_empty(display_size: u64, tile_size: u64, scroll: i64)
    requires
        tile_size > 0,
    ensures
        finite_tile_count(display_size as int, tile_size as int, scroll as int) >= 1,
        infinite_tile_count(display_size as int, tile_size as int, scroll as int) >= 1,
{
    let d = display_size as int;
    let t = tile_size as int;
    let s = scroll as int;
    let f = truncated_offset(t, s);
    let w = wrapped_offset(t, s);
    if d - (t - f) > 0 {
        lemma_ceil_div_bounds(d - (t - f), t);
    }
    if d - (t - w) > 0 {
        lemma_ceil_div_bounds(d - (t - w), t);
    }
}

/// The finite windower puts the tile in slot `tile_num`, whose index in the
/// source is `first_tile + tile_num`, where the grid has it: its index times
/// the tile size, less the scroll. This holds for a negative scroll as for a
/// positive one, so positions move on continuously as the scroll crosses zero.
pub proof fn lemma_finite_positions_on_grid(tile_size: u64, scroll: i64, tile_num: nat)
    requires
        tile_size > 0,
    ensures
        finite_position(tile_size as int, scroll as int, tile_num as int) == tile_size * (
        first_tile(tile_size as int, scroll as int) + tile_num) - scroll,
{
    let t = tile_size as int;
    let s = scroll as int;
    let m = if s >= 0 { s } else { -s };
    let k = tile_num as int;
    lemma_fundamental_div_mod(m, t);
    let q = m / t;
    let r = m % t;
    if s > 0 {
        assert(t * (k + 0) - r == t * (q + k) - s) by (nonlinear_arith)
            requires
                s == t * q + r,
        ;
    } else {
        assert(t * (k + q) + r == t * (0 + k) - s) by (nonlinear_arith)
            requires
                -s == t * q + r,
        ;
    }
}

/// The unbounded windower puts the tile in slot `tile_num` where the grid has
/// the tile of index `scroll / tile_size + tile_num` (rounding down): its
/// index times the tile size, less the scroll.
pub proof fn lemma_infinite_positions_on_grid(tile_size: u64, scroll: i64, tile_num: nat)
    requires
        tile_size > 0,
    ensures
        infinite_position(tile_size as int, scroll as int, tile_num as int) == tile_size * (
        (scroll as int) / (tile_size as int) + tile_num) - scroll,
{
    let t = tile_size as int;
    let s = scroll as int;
    let k = tile_num as int;
    lemma_fundamental_div_mod(s, t);
    let q = s / t;
    let r = s % t;
    assert(t * k - r == t * (q + k) - s) by (nonlinear_arith)
        requires
            s == t * q + r,
    ;
}

/// Scrolling the unbounded window on by one unit, across zero as anywhere
/// else, moves every tile back by exactly one unit: each slot keeps its tile,
/// unless the step takes the first tile wholly off the display, in which case
/// every tile moves up one slot.
pub proof fn lemma_scroll_step(tile_size: u64, scroll: i64, tile_num: nat)
    requires
        tile_size > 0,
        scroll < i64::MAX,
    ensures
        (scroll as int) % (tile_size as int) != tile_size - 1 ==> infinite_position(
            tile_size as int,
            scroll + 1,
            tile_num as int,
        ) == infinite_position(tile_size as int, scroll as int, tile_num as int) - 1,
        (scroll as int) % (tile_size as int) == tile_size - 1 ==> infinite_position(
            tile_size as int,
            scroll + 1,
            tile_num as int,
        ) == infinite_position(tile_size as int, scroll as int, tile_num + 1 as int) - 1,
{
    let t = tile_size as int;
    let s = scroll as int;
    let k = tile_num as int;
    lemma_fundamental_div_mod(s, t);
    lemma_mod_bound(s, t);
    let q = s / t;
    let r = s % t;
    assert(q * t == t * q && (q + 1) * t == t * q + t) by (nonlinear_arith);
    if r != t - 1 {
        lemma_fundamental_div_mod_converse(s + 1, t, q, r + 1);
    } else {
        lemma_fundamental_div_mod_converse(s + 1, t, q + 1, 0);
        assert(t * (k + 1) == t * k + t) by (nonlinear_arith);
    }
}

} // verus!
