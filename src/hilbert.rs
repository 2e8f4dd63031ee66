//! The Hilbert curve key by which items are ordered before the tree is packed.
//!
//! Each coordinate is first placed on a grid of `2^HILBERT_LEVEL` cells per axis,
//! spread over the extent of the data; the cell is then mapped to its position
//! along a Hilbert curve of that order by a branch-free network of bit operations.
use vstd::prelude::*;

use crate::geometry::{BBox, CoordinateType, Point};

verus! {

/// Bits per axis of the grid on which points are placed.
pub const HILBERT_LEVEL: u32 = 12;

/// The largest grid cell along an axis, `2^HILBERT_LEVEL - 1`.
pub const H: u32 = 4095;

/// The grid cell of coordinate `c` on an axis whose data spans `lo..=hi`.
///
/// The span is cut into `H` strides of `(hi - lo) / H`; the cell is the number of
/// whole strides between `lo` and `c`. A span of width zero takes strides of one,
/// so every coordinate on it falls in cell zero. Coordinates outside the span are
/// held to its ends.
pub open spec fn grid_cell(c: int, lo: int, hi: int) -> int {
    if c <= lo {
        0
    } else if c >= hi {
        H as int
    } else {
        (c - lo) * (H as int) / (hi - lo)
    }
}

/// The quadrant of level `t` that `(x, y)` lies in, numbered in the order the
/// curve visits them: lower left, upper left, upper right, lower right.
#[verifier::inline]
pub open spec fn level_quadrant(x: u32, y: u32, t: u32) -> u32 {
    let rx = (x >> t) & 1u32;
    let ry = (y >> t) & 1u32;
    ((rx << 1u32) | rx) ^ ry
}

/// The x coordinate of `(x, y)` inside its quadrant of level `t`, in the frame
/// in which the quadrant's part of the curve runs like the whole: the lower
/// quadrants are mirrored in their diagonal, the lower right one also turned
/// half round. `low` keeps the bits below level `t`.
#[verifier::inline]
pub open spec fn level_next_x(x: u32, y: u32, t: u32, low: u32) -> u32 {
    if (y >> t) & 1u32 == 1u32 {
        x & low
    } else if (x >> t) & 1u32 == 1u32 {
        low ^ (y & low)
    } else {
        y & low
    }
}

/// The y coordinate of `(x, y)` inside its quadrant of level `t`; see
/// [`level_next_x`].
#[verifier::inline]
pub open spec fn level_next_y(x: u32, y: u32, t: u32, low: u32) -> u32 {
    if (y >> t) & 1u32 == 1u32 {
        y & low
    } else if (x >> t) & 1u32 == 1u32 {
        low ^ (x & low)
    } else {
        x & low
    }
}

/// The position of cell `(x, y)` along the Hilbert curve over the grid of
/// `2^s` by `2^s` cells that starts at `(0, 0)` and ends at `(2^s - 1, 0)`: the
/// quadrant of the top level gives the two highest bits, and the position inside
/// the quadrant, in the quadrant's own frame, gives the rest.
pub open spec fn hilbert_walk(x: u32, y: u32, s: nat) -> u32
    decreases s,
{
    if s == 0 || s > 12 {
        0
    } else {
        let t = (s - 1) as u32;
        let low = 0x7FFu32 >> (12 - s) as u32;
        (level_quadrant(x, y, t) << (2 * (s - 1)) as u32) | hilbert_walk(
            level_next_x(x, y, t, low),
            level_next_y(x, y, t, low),
            (s - 1) as nat,
        )
    }
}

/// Spreads the low sixteen bits of `x` onto the even bit positions.
#[verifier::inline]
pub open spec fn spread_bits(x: u32) -> u32 {
    let x = (x | (x << 8u32)) & 0x00FF00FFu32;
    let x = (x | (x << 4u32)) & 0x0F0F0F0Fu32;
    let x = (x | (x << 2u32)) & 0x33333333u32;
    (x | (x << 1u32)) & 0x55555555u32
}

// The branch-free network. Each level's transform of the curve is coded in two
// bits (a, b); a prefix scan composes the transforms of all higher levels in
// rounds over 1, 2, 4 and 8 levels, carrying the composed frame in (c, d).

#[verifier::inline]
pub open spec fn prime_a(x: u32, y: u32) -> u32 {
    (x ^ y) | ((0xFFFFu32 ^ (x ^ y)) >> 1u32)
}

#[verifier::inline]
pub open spec fn prime_b(x: u32, y: u32) -> u32 {
    ((x ^ y) >> 1u32) ^ (x ^ y)
}

#[verifier::inline]
pub open spec fn prime_c(x: u32, y: u32) -> u32 {
    let b = 0xFFFFu32 ^ (x ^ y);
    let c = 0xFFFFu32 ^ (x | y);
    let d = x & (y ^ 0xFFFFu32);
    ((c >> 1u32) ^ (b & (d >> 1u32))) ^ c
}

#[verifier::inline]
pub open spec fn prime_d(x: u32, y: u32) -> u32 {
    let a = x ^ y;
    let c = 0xFFFFu32 ^ (x | y);
    let d = x & (y ^ 0xFFFFu32);
    ((a & (c >> 1u32)) ^ (d >> 1u32)) ^ d
}

#[verifier::inline]
pub open spec fn round_a(a: u32, b: u32, s: u32) -> u32 {
    (a & (a >> s)) ^ (b & (b >> s))
}

#[verifier::inline]
pub open spec fn round_b(a: u32, b: u32, s: u32) -> u32 {
    (a & (b >> s)) ^ (b & ((a ^ b) >> s))
}

#[verifier::inline]
pub open spec fn round_c(a: u32, b: u32, c: u32, d: u32, s: u32) -> u32 {
    c ^ ((a & (c >> s)) ^ (b & (d >> s)))
}

#[verifier::inline]
pub open spec fn round_d(a: u32, b: u32, c: u32, d: u32, s: u32) -> u32 {
    d ^ ((b & (c >> s)) ^ ((a ^ b) & (d >> s)))
}

/// The network's output for cell `(x, y)`, written out for bit-vector proofs.
#[verifier::inline]
pub open spec fn hilbert_net(x: u32, y: u32) -> u32 {
    let x = x << 4u32;
    let y = y << 4u32;
    let a0 = prime_a(x, y);
    let b0 = prime_b(x, y);
    let c0 = prime_c(x, y);
    let d0 = prime_d(x, y);
    let a1 = round_a(a0, b0, 2u32);
    let b1 = round_b(a0, b0, 2u32);
    let c1 = round_c(a0, b0, c0, d0, 2u32);
    let d1 = round_d(a0, b0, c0, d0, 2u32);
    let a2 = round_a(a1, b1, 4u32);
    let b2 = round_b(a1, b1, 4u32);
    let c2 = round_c(a1, b1, c1, d1, 4u32);
    let d2 = round_d(a1, b1, c1, d1, 4u32);
    let c3 = round_c(a2, b2, c2, d2, 8u32);
    let d3 = round_d(a2, b2, c2, d2, 8u32);
    let i0 = x ^ y;
    let i1 = (d3 ^ (d3 >> 1u32)) | (0xFFFFu32 ^ (i0 | (c3 ^ (c3 >> 1u32))));
    ((spread_bits(i1) << 1u32) | spread_bits(i0)) >> 8u32
}

/// What the network computes for cell `(x, y)`; `hilbert_network_walks` shows
/// that it is `hilbert_walk(x, y, HILBERT_LEVEL)` on the grid.
pub open spec fn hilbert_index(x: u32, y: u32) -> u32 {
    hilbert_net(x, y)
}

/// The network read in the frame of level `s`: below the top level, frames
/// alternate between the grid's own and its mirror image in the diagonal.
pub open spec fn network_in_frame(x: u32, y: u32, s: nat) -> u32 {
    if (12 - s) % 2 == 0 {
        hilbert_index(x, y)
    } else {
        hilbert_index(y, x)
    }
}

/// The sort key of point `p` for data spanning `extent`.
pub open spec fn hilbert_key(extent: BBox, p: Point) -> u32 {
    hilbert_walk(
        grid_cell(p.x as int, extent.minx as int, extent.maxx as int) as u32,
        grid_cell(p.y as int, extent.miny as int, extent.maxy as int) as u32,
        HILBERT_LEVEL as nat,
    )
}

#[verifier::rlimit(100)]
proof fn lemma_level_12(x: u32, y: u32)
    requires
        x <= 0xFFFu32 >> 0u32,
        y <= 0xFFFu32 >> 0u32,
    ensures
        hilbert_index(x, y) == (level_quadrant(x, y, 11u32) << 22u32) | hilbert_index(level_next_y(x, y, 11u32, 0x7FFu32 >> 0u32), level_next_x(x, y, 11u32, 0x7FFu32 >> 0u32)),
        level_next_x(x, y, 11u32, 0x7FFu32 >> 0u32) <= 0xFFFu32 >> 1u32,
        level_next_y(x, y, 11u32, 0x7FFu32 >> 0u32) <= 0xFFFu32 >> 1u32,
{
    let nx = level_next_x(x, y, 11u32, 0x7FFu32 >> 0u32);
    let ny = level_next_y(x, y, 11u32, 0x7FFu32 >> 0u32);
    assert(hilbert_net(x, y) == (level_quadrant(x, y, 11u32) << 22u32) | hilbert_net(ny, nx) && nx <= 0xFFFu32 >> 1u32
        && ny <= 0xFFFu32 >> 1u32) by (bit_vector)
        requires
            x <= 0xFFFu32 >> 0u32,
            y <= 0xFFFu32 >> 0u32,
            nx == level_next_x(x, y, 11u32, 0x7FFu32 >> 0u32),
            ny == level_next_y(x, y, 11u32, 0x7FFu32 >> 0u32),
    ;
}

#[verifier::rlimit(100)]
proof fn lemma_level_11(x: u32, y: u32)
    requires
        x <= 0xFFFu32 >> 1u32,
        y <= 0xFFFu32 >> 1u32,
    ensures
        hilbert_index(y, x) == (level_quadrant(x, y, 10u32) << 20u32) | hilbert_index(level_next_x(x, y, 10u32, 0x7FFu32 >> 1u32), level_next_y(x, y, 10u32, 0x7FFu32 >> 1u32)),
        level_next_x(x, y, 10u32, 0x7FFu32 >> 1u32) <= 0xFFFu32 >> 2u32,
        level_next_y(x, y, 10u32, 0x7FFu32 >> 1u32) <= 0xFFFu32 >> 2u32,
{
    let nx = level_next_x(x, y, 10u32, 0x7FFu32 >> 1u32);
    let ny = level_next_y(x, y, 10u32, 0x7FFu32 >> 1u32);
    assert(hilbert_net(y, x) == (level_quadrant(x, y, 10u32) << 20u32) | hilbert_net(nx, ny) && nx <= 0xFFFu32 >> 2u32
        && ny <= 0xFFFu32 >> 2u32) by (bit_vector)
        requires
            x <= 0xFFFu32 >> 1u32,
            y <= 0xFFFu32 >> 1u32,
            nx == level_next_x(x, y, 10u32, 0x7FFu32 >> 1u32),
            ny == level_next_y(x, y, 10u32, 0x7FFu32 >> 1u32),
    ;
}

#[verifier::rlimit(100)]
proof fn lemma_level_10(x: u32, y: u32)
    requires
        x <= 0xFFFu32 >> 2u32,
        y <= 0xFFFu32 >> 2u32,
    ensures
        hilbert_index(x, y) == (level_quadrant(x, y, 9u32) << 18u32) | hilbert_index(level_next_y(x, y, 9u32, 0x7FFu32 >> 2u32), level_next_x(x, y, 9u32, 0x7FFu32 >> 2u32)),
        level_next_x(x, y, 9u32, 0x7FFu32 >> 2u32) <= 0xFFFu32 >> 3u32,
        level_next_y(x, y, 9u32, 0x7FFu32 >> 2u32) <= 0xFFFu32 >> 3u32,
{
    let nx = level_next_x(x, y, 9u32, 0x7FFu32 >> 2u32);
    let ny = level_next_y(x, y, 9u32, 0x7FFu32 >> 2u32);
    assert(hilbert_net(x, y) == (level_quadrant(x, y, 9u32) << 18u32) | hilbert_net(ny, nx) && nx <= 0xFFFu32 >> 3u32
        && ny <= 0xFFFu32 >> 3u32) by (bit_vector)
        requires
            x <= 0xFFFu32 >> 2u32,
            y <= 0xFFFu32 >> 2u32,
            nx == level_next_x(x, y, 9u32, 0x7FFu32 >> 2u32),
            ny == level_next_y(x, y, 9u32, 0x7FFu32 >> 2u32),
    ;
}

#[verifier::rlimit(100)]
proof fn lemma_level_9(x: u32, y: u32)
    requires
        x <= 0xFFFu32 >> 3u32,
        y <= 0xFFFu32 >> 3u32,
    ensures
        hilbert_index(y, x) == (level_quadrant(x, y, 8u32) << 16u32) | hilbert_index(level_next_x(x, y, 8u32, 0x7FFu32 >> 3u32), level_next_y(x, y, 8u32, 0x7FFu32 >> 3u32)),
        level_next_x(x, y, 8u32, 0x7FFu32 >> 3u32) <= 0xFFFu32 >> 4u32,
        level_next_y(x, y, 8u32, 0x7FFu32 >> 3u32) <= 0xFFFu32 >> 4u32,
{
    let nx = level_next_x(x, y, 8u32, 0x7FFu32 >> 3u32);
    let ny = level_next_y(x, y, 8u32, 0x7FFu32 >> 3u32);
    assert(hilbert_net(y, x) == (level_quadrant(x, y, 8u32) << 16u32) | hilbert_net(nx, ny) && nx <= 0xFFFu32 >> 4u32
        && ny <= 0xFFFu32 >> 4u32) by (bit_vector)
        requires
            x <= 0xFFFu32 >> 3u32,
            y <= 0xFFFu32 >> 3u32,
            nx == level_next_x(x, y, 8u32, 0x7FFu32 >> 3u32),
            ny == level_next_y(x, y, 8u32, 0x7FFu32 >> 3u32),
    ;
}

#[verifier::rlimit(100)]
proof fn lemma_level_8(x: u32, y: u32)
    requires
        x <= 0xFFFu32 >> 4u32,
        y <= 0xFFFu32 >> 4u32,
    ensures
        hilbert_index(x, y) == (level_quadrant(x, y, 7u32) << 14u32) | hilbert_index(level_next_y(x, y, 7u32, 0x7FFu32 >> 4u32), level_next_x(x, y, 7u32, 0x7FFu32 >> 4u32)),
        level_next_x(x, y, 7u32, 0x7FFu32 >> 4u32) <= 0xFFFu32 >> 5u32,
        level_next_y(x, y, 7u32, 0x7FFu32 >> 4u32) <= 0xFFFu32 >> 5u32,
{
    let nx = level_next_x(x, y, 7u32, 0x7FFu32 >> 4u32);
    let ny = level_next_y(x, y, 7u32, 0x7FFu32 >> 4u32);
    assert(hilbert_net(x, y) == (level_quadrant(x, y, 7u32) << 14u32) | hilbert_net(ny, nx) && nx <= 0xFFFu32 >> 5u32
        && ny <= 0xFFFu32 >> 5u32) by (bit_vector)
        requires
            x <= 0xFFFu32 >> 4u32,
            y <= 0xFFFu32 >> 4u32,
            nx == level_next_x(x, y, 7u32, 0x7FFu32 >> 4u32),
            ny == level_next_y(x, y, 7u32, 0x7FFu32 >> 4u32),
    ;
}

#[verifier::rlimit(100)]
proof fn lemma_level_7(x: u32, y: u32)
    requires
        x <= 0xFFFu32 >> 5u32,
        y <= 0xFFFu32 >> 5u32,
    ensures
        hilbert_index(y, x) == (level_quadrant(x, y, 6u32) << 12u32) | hilbert_index(level_next_x(x, y, 6u32, 0x7FFu32 >> 5u32), level_next_y(x, y, 6u32, 0x7FFu32 >> 5u32)),
        level_next_x(x, y, 6u32, 0x7FFu32 >> 5u32) <= 0xFFFu32 >> 6u32,
        level_next_y(x, y, 6u32, 0x7FFu32 >> 5u32) <= 0xFFFu32 >> 6u32,
{
    let nx = level_next_x(x, y, 6u32, 0x7FFu32 >> 5u32);
    let ny = level_next_y(x, y, 6u32, 0x7FFu32 >> 5u32);
    assert(hilbert_net(y, x) == (level_quadrant(x, y, 6u32) << 12u32) | hilbert_net(nx, ny) && nx <= 0xFFFu32 >> 6u32
        && ny <= 0xFFFu32 >> 6u32) by (bit_vector)
        requires
            x <= 0xFFFu32 >> 5u32,
            y <= 0xFFFu32 >> 5u32,
            nx == level_next_x(x, y, 6u32, 0x7FFu32 >> 5u32),
            ny == level_next_y(x, y, 6u32, 0x7FFu32 >> 5u32),
    ;
}

#[verifier::rlimit(100)]
proof fn lemma_level_6(x: u32, y: u32)
    requires
        x <= 0xFFFu32 >> 6u32,
        y <= 0xFFFu32 >> 6u32,
    ensures
        hilbert_index(x, y) == (level_quadrant(x, y, 5u32) << 10u32) | hilbert_index(level_next_y(x, y, 5u32, 0x7FFu32 >> 6u32), level_next_x(x, y, 5u32, 0x7FFu32 >> 6u32)),
        level_next_x(x, y, 5u32, 0x7FFu32 >> 6u32) <= 0xFFFu32 >> 7u32,
        level_next_y(x, y, 5u32, 0x7FFu32 >> 6u32) <= 0xFFFu32 >> 7u32,
{
    let nx = level_next_x(x, y, 5u32, 0x7FFu32 >> 6u32);
    let ny = level_next_y(x, y, 5u32, 0x7FFu32 >> 6u32);
    assert(hilbert_net(x, y) == (level_quadrant(x, y, 5u32) << 10u32) | hilbert_net(ny, nx) && nx <= 0xFFFu32 >> 7u32
        && ny <= 0xFFFu32 >> 7u32) by (bit_vector)
        requires
            x <= 0xFFFu32 >> 6u32,
            y <= 0xFFFu32 >> 6u32,
            nx == level_next_x(x, y, 5u32, 0x7FFu32 >> 6u32),
            ny == level_next_y(x, y, 5u32, 0x7FFu32 >> 6u32),
    ;
}

#[verifier::rlimit(100)]
proof fn lemma_level_5(x: u32, y: u32)
    requires
        x <= 0xFFFu32 >> 7u32,
        y <= 0xFFFu32 >> 7u32,
    ensures
        hilbert_index(y, x) == (level_quadrant(x, y, 4u32) << 8u32) | hilbert_index(level_next_x(x, y, 4u32, 0x7FFu32 >> 7u32), level_next_y(x, y, 4u32, 0x7FFu32 >> 7u32)),
        level_next_x(x, y, 4u32, 0x7FFu32 >> 7u32) <= 0xFFFu32 >> 8u32,
        level_next_y(x, y, 4u32, 0x7FFu32 >> 7u32) <= 0xFFFu32 >> 8u32,
{
    let nx = level_next_x(x, y, 4u32, 0x7FFu32 >> 7u32);
    let ny = level_next_y(x, y, 4u32, 0x7FFu32 >> 7u32);
    assert(hilbert_net(y, x) == (level_quadrant(x, y, 4u32) << 8u32) | hilbert_net(nx, ny) && nx <= 0xFFFu32 >> 8u32
        && ny <= 0xFFFu32 >> 8u32) by (bit_vector)
        requires
            x <= 0xFFFu32 >> 7u32,
            y <= 0xFFFu32 >> 7u32,
            nx == level_next_x(x, y, 4u32, 0x7FFu32 >> 7u32),
            ny == level_next_y(x, y, 4u32, 0x7FFu32 >> 7u32),
    ;
}

#[verifier::rlimit(100)]
proof fn lemma_level_4(x: u32, y: u32)
    requires
        x <= 0xFFFu32 >> 8u32,
        y <= 0xFFFu32 >> 8u32,
    ensures
        hilbert_index(x, y) == (level_quadrant(x, y, 3u32) << 6u32) | hilbert_index(level_next_y(x, y, 3u32, 0x7FFu32 >> 8u32), level_next_x(x, y, 3u32, 0x7FFu32 >> 8u32)),
        level_next_x(x, y, 3u32, 0x7FFu32 >> 8u32) <= 0xFFFu32 >> 9u32,
        level_next_y(x, y, 3u32, 0x7FFu32 >> 8u32) <= 0xFFFu32 >> 9u32,
{
    let nx = level_next_x(x, y, 3u32, 0x7FFu32 >> 8u32);
    let ny = level_next_y(x, y, 3u32, 0x7FFu32 >> 8u32);
    assert(hilbert_net(x, y) == (level_quadrant(x, y, 3u32) << 6u32) | hilbert_net(ny, nx) && nx <= 0xFFFu32 >> 9u32
        && ny <= 0xFFFu32 >> 9u32) by (bit_vector)
        requires
            x <= 0xFFFu32 >> 8u32,
            y <= 0xFFFu32 >> 8u32,
            nx == level_next_x(x, y, 3u32, 0x7FFu32 >> 8u32),
            ny == level_next_y(x, y, 3u32, 0x7FFu32 >> 8u32),
    ;
}

#[verifier::rlimit(100)]
proof fn lemma_level_3(x: u32, y: u32)
    requires
        x <= 0xFFFu32 >> 9u32,
        y <= 0xFFFu32 >> 9u32,
    ensures
        hilbert_index(y, x) == (level_quadrant(x, y, 2u32) << 4u32) | hilbert_index(level_next_x(x, y, 2u32, 0x7FFu32 >> 9u32), level_next_y(x, y, 2u32, 0x7FFu32 >> 9u32)),
        level_next_x(x, y, 2u32, 0x7FFu32 >> 9u32) <= 0xFFFu32 >> 10u32,
        level_next_y(x, y, 2u32, 0x7FFu32 >> 9u32) <= 0xFFFu32 >> 10u32,
{
    let nx = level_next_x(x, y, 2u32, 0x7FFu32 >> 9u32);
    let ny = level_next_y(x, y, 2u32, 0x7FFu32 >> 9u32);
    assert(hilbert_net(y, x) == (level_quadrant(x, y, 2u32) << 4u32) | hilbert_net(nx, ny) && nx <= 0xFFFu32 >> 10u32
        && ny <= 0xFFFu32 >> 10u32) by (bit_vector)
        requires
            x <= 0xFFFu32 >> 9u32,
            y <= 0xFFFu32 >> 9u32,
            nx == level_next_x(x, y, 2u32, 0x7FFu32 >> 9u32),
            ny == level_next_y(x, y, 2u32, 0x7FFu32 >> 9u32),
    ;
}

#[verifier::rlimit(100)]
proof fn lemma_level_2(x: u32, y: u32)
    requires
        x <= 0xFFFu32 >> 10u32,
        y <= 0xFFFu32 >> 10u32,
    ensures
        hilbert_index(x, y) == (level_quadrant(x, y, 1u32) << 2u32) | hilbert_index(level_next_y(x, y, 1u32, 0x7FFu32 >> 10u32), level_next_x(x, y, 1u32, 0x7FFu32 >> 10u32)),
        level_next_x(x, y, 1u32, 0x7FFu32 >> 10u32) <= 0xFFFu32 >> 11u32,
        level_next_y(x, y, 1u32, 0x7FFu32 >> 10u32) <= 0xFFFu32 >> 11u32,
{
    let nx = level_next_x(x, y, 1u32, 0x7FFu32 >> 10u32);
    let ny = level_next_y(x, y, 1u32, 0x7FFu32 >> 10u32);
    assert(hilbert_net(x, y) == (level_quadrant(x, y, 1u32) << 2u32) | hilbert_net(ny, nx) && nx <= 0xFFFu32 >> 11u32
        && ny <= 0xFFFu32 >> 11u32) by (bit_vector)
        requires
            x <= 0xFFFu32 >> 10u32,
            y <= 0xFFFu32 >> 10u32,
            nx == level_next_x(x, y, 1u32, 0x7FFu32 >> 10u32),
            ny == level_next_y(x, y, 1u32, 0x7FFu32 >> 10u32),
    ;
}

#[verifier::rlimit(100)]
proof fn lemma_level_1(x: u32, y: u32)
    requires
        x <= 0xFFFu32 >> 11u32,
        y <= 0xFFFu32 >> 11u32,
    ensures
        hilbert_index(y, x) == (level_quadrant(x, y, 0u32) << 0u32) | hilbert_index(level_next_x(x, y, 0u32, 0x7FFu32 >> 11u32), level_next_y(x, y, 0u32, 0x7FFu32 >> 11u32)),
        level_next_x(x, y, 0u32, 0x7FFu32 >> 11u32) <= 0xFFFu32 >> 12u32,
        level_next_y(x, y, 0u32, 0x7FFu32 >> 11u32) <= 0xFFFu32 >> 12u32,
{
    let nx = level_next_x(x, y, 0u32, 0x7FFu32 >> 11u32);
    let ny = level_next_y(x, y, 0u32, 0x7FFu32 >> 11u32);
    assert(hilbert_net(y, x) == (level_quadrant(x, y, 0u32) << 0u32) | hilbert_net(nx, ny) && nx <= 0xFFFu32 >> 12u32
        && ny <= 0xFFFu32 >> 12u32) by (bit_vector)
        requires
            x <= 0xFFFu32 >> 11u32,
            y <= 0xFFFu32 >> 11u32,
            nx == level_next_x(x, y, 0u32, 0x7FFu32 >> 11u32),
            ny == level_next_y(x, y, 0u32, 0x7FFu32 >> 11u32),
    ;
}

/// One level of the walk: in the frame of level `s` the network gives the
/// quadrant of that level, then continues in the quadrant's frame.
proof fn lemma_level(x: u32, y: u32, s: nat)
    requires
        1 <= s <= 12,
        x <= 0xFFFu32 >> (12 - s) as u32,
        y <= 0xFFFu32 >> (12 - s) as u32,
    ensures
        network_in_frame(x, y, s) == (level_quadrant(x, y, (s - 1) as u32) << (2 * (s - 1)) as u32)
            | network_in_frame(
            level_next_x(x, y, (s - 1) as u32, 0x7FFu32 >> (12 - s) as u32),
            level_next_y(x, y, (s - 1) as u32, 0x7FFu32 >> (12 - s) as u32),
            (s - 1) as nat,
        ),
        level_next_x(x, y, (s - 1) as u32, 0x7FFu32 >> (12 - s) as u32) <= 0xFFFu32 >> (13
            - s) as u32,
        level_next_y(x, y, (s - 1) as u32, 0x7FFu32 >> (12 - s) as u32) <= 0xFFFu32 >> (13
            - s) as u32,
{
    if s == 12 {
        lemma_level_12(x, y);
    } else if s == 11 {
        lemma_level_11(x, y);
    } else if s == 10 {
        lemma_level_10(x, y);
    } else if s == 9 {
        lemma_level_9(x, y);
    } else if s == 8 {
        lemma_level_8(x, y);
    } else if s == 7 {
        lemma_level_7(x, y);
    } else if s == 6 {
        lemma_level_6(x, y);
    } else if s == 5 {
        lemma_level_5(x, y);
    } else if s == 4 {
        lemma_level_4(x, y);
    } else if s == 3 {
        lemma_level_3(x, y);
    } else if s == 2 {
        lemma_level_2(x, y);
    } else {
        lemma_level_1(x, y);
    }
}

/// In the frame of level `s`, the network walks the curve of order `s`.
proof fn lemma_network_walk(x: u32, y: u32, s: nat)
    requires
        s <= 12,
        x <= 0xFFFu32 >> (12 - s) as u32,
        y <= 0xFFFu32 >> (12 - s) as u32,
    ensures
        network_in_frame(x, y, s) == hilbert_walk(x, y, s),
    decreases s,
{
    if s == 0 {
        assert(0xFFFu32 >> 12u32 == 0u32) by (bit_vector);
        assert(hilbert_net(0u32, 0u32) == 0u32) by (bit_vector);
    } else {
        lemma_level(x, y, s);
        let low = 0x7FFu32 >> (12 - s) as u32;
        lemma_network_walk(
            level_next_x(x, y, (s - 1) as u32, low),
            level_next_y(x, y, (s - 1) as u32, low),
            (s - 1) as nat,
        );
    }
}

/// The network computes the Hilbert curve: on the grid it is `hilbert_walk`.
pub proof fn hilbert_network_walks(x: u32, y: u32)
    requires
        x <= H,
        y <= H,
    ensures
        hilbert_index(x, y) == hilbert_walk(x, y, HILBERT_LEVEL as nat),
{
    assert(0xFFFu32 >> 0u32 == 0xFFFu32) by (bit_vector);
    lemma_network_walk(x, y, 12);
}

fn interleave(x: u32) -> (r: u32)
    ensures
        r == spread_bits(x),
{
    let x = (x | (x << 8u32)) & 0x00FF00FFu32;
    let x = (x | (x << 4u32)) & 0x0F0F0F0Fu32;
    let x = (x | (x << 2u32)) & 0x33333333u32;
    (x | (x << 1u32)) & 0x55555555u32
}

fn scan(a: u32, b: u32, c: u32, d: u32, s: u32) -> (r: (u32, u32, u32, u32))
    requires
        s < 32,
    ensures
        r.0 == round_a(a, b, s),
        r.1 == round_b(a, b, s),
        r.2 == round_c(a, b, c, d, s),
        r.3 == round_d(a, b, c, d, s),
{
    (
        (a & (a >> s)) ^ (b & (b >> s)),
        (a & (b >> s)) ^ (b & ((a ^ b) >> s)),
        c ^ ((a & (c >> s)) ^ (b & (d >> s))),
        d ^ ((b & (c >> s)) ^ ((a ^ b) & (d >> s))),
    )
}

/// The position of grid cell `(x, y)` along the Hilbert curve; it has
/// `2 * HILBERT_LEVEL` bits.
pub fn hilbert_xy_to_index(x: u32, y: u32) -> (r: u32)
    ensures
        r == hilbert_index(x, y),
        r < 0x100_0000,
        x <= H && y <= H ==> r == hilbert_walk(x, y, HILBERT_LEVEL as nat),
{
    let xs = x << 4u32;
    let ys = y << 4u32;

    // First round of the prefix scan, primed with x and y.
    let a = xs ^ ys;
    let b = 0xFFFFu32 ^ a;
    let c = 0xFFFFu32 ^ (xs | ys);
    let d = xs & (ys ^ 0xFFFFu32);
    let a0 = a | (b >> 1u32);
    let b0 = (a >> 1u32) ^ a;
    let c0 = ((c >> 1u32) ^ (b & (d >> 1u32))) ^ c;
    let d0 = ((a & (c >> 1u32)) ^ (d >> 1u32)) ^ d;

    let (a1, b1, c1, d1) = scan(a0, b0, c0, d0, 2u32);
    let (a2, b2, c2, d2) = scan(a1, b1, c1, d1, 4u32);
    // The last round only needs the transformed c and d.
    let (_, _, c3, d3) = scan(a2, b2, c2, d2, 8u32);

    // Undo the prefix scan, then recover the index bits.
    let ua = c3 ^ (c3 >> 1u32);
    let ub = d3 ^ (d3 >> 1u32);
    let i0 = xs ^ ys;
    let i1 = ub | (0xFFFFu32 ^ (i0 | ua));

    let w = (interleave(i1) << 1u32) | interleave(i0);
    let r = w >> 8u32;
    assert(w >> 8u32 < 0x100_0000u32) by (bit_vector);
    proof {
        if x <= H && y <= H {
            hilbert_network_walks(x, y);
        }
    }
    r
}

/// The grid cell of `c` on an axis whose data spans `lo..=hi`.
pub fn grid_cell_of(c: CoordinateType, lo: CoordinateType, hi: CoordinateType) -> (r: u32)
    ensures
        r as int == grid_cell(c as int, lo as int, hi as int),
        r <= H,
{
    if c <= lo {
        0
    } else if c >= hi {
        H
    } else {
        let num: i64 = c as i64 - lo as i64;
        let den: i64 = hi as i64 - lo as i64;
        assert(0 <= (num as int) * 4095 / (den as int) < 4095) by (nonlinear_arith)
            requires
                0 < num < den,
        ;
        (num * (H as i64) / den) as u32
    }
}

/// The sort key of `p` for data spanning `extent`.
pub fn hilbert_key_of(extent: &BBox, p: &Point) -> (r: u32)
    ensures
        r == hilbert_key(*extent, *p),
{
    let gx = grid_cell_of(p.x, extent.minx, extent.maxx);
    let gy = grid_cell_of(p.y, extent.miny, extent.maxy);
    hilbert_xy_to_index(gx, gy)
}

} // verus!
