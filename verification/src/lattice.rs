//! Keys for the lattice points of the noise fields: a seed, an octree level
//! and a position combined into one 128-bit value for `mix128` to spread.
//!
//! The scaled inputs are summed rather than xor-ed: xor is carry-less, so two
//! negative coordinates, which sign-extend into runs of high one bits, would
//! cancel each other's upper half. Each axis has its own odd multiplier, so
//! the key depends on the order of the coordinates, and the level and the
//! dimension go in too, so that octaves and lattices of different
//! dimensions draw unrelated keys.
use vstd::prelude::*;
use crate::seed::Seed;
use crate::linear::{Vector2, Vector3, Vector4};

verus! {

/// Multiplier of the octree level.
pub const LEVEL_PRIME: u128 = 0xFF51_AFD7_ED55_8CCD_D6E8_FEB8_6659_FD93;

/// Multiplier of the lattice's dimension.
pub const DIMENSION_PRIME: u128 = 0x2545_F491_4F6C_DD1D_A24B_AA9B_4C6D_E44B;

/// Multiplier of the first axis.
pub const X_PRIME: u128 = 0x9E37_79B9_7F4A_7C15_F39C_C060_5CED_C835;

/// Multiplier of the second axis.
pub const Y_PRIME: u128 = 0xC2B2_AE3D_27D4_EB4F_1656_67B1_9E37_79F9;

/// Multiplier of the third axis.
pub const Z_PRIME: u128 = 0x27D4_EB2F_1658_67C5_85EB_CA77_C2B2_AE63;

/// Multiplier of the fourth axis.
pub const W_PRIME: u128 = 0xBF58_476D_1CE4_E5B9_94D0_49BB_1331_11EB;

/// The multiplier of axis `axis`, counted from zero; a coordinate keeps it
/// whatever the dimension of its lattice.
pub open spec fn axis_prime(axis: int) -> u128 {
    if axis == 0 {
        X_PRIME
    } else if axis == 1 {
        Y_PRIME
    } else if axis == 2 {
        Z_PRIME
    } else {
        W_PRIME
    }
}

/// The key before any coordinate is added: the seed plus the level and the
/// dimension, each scaled by its multiplier, modulo 2^128. The level is read
/// as its two's-complement bits.
pub open spec fn base_key(seed: u128, level: i8, dimension: nat) -> u128 {
    seed.wrapping_add((level as i128 as u128).wrapping_mul(LEVEL_PRIME)).wrapping_add(
        (dimension as u128).wrapping_mul(DIMENSION_PRIME),
    )
}

/// `key` plus every coordinate of `position` scaled by its axis's multiplier,
/// modulo 2^128. Coordinates are read as their two's-complement bits.
pub open spec fn lattice_key(key: u128, position: Seq<i128>) -> u128
    decreases position.len(),
{
    if position.len() == 0 {
        key
    } else {
        lattice_key(key, position.drop_last()).wrapping_add(
            (position.last() as u128).wrapping_mul(axis_prime(position.len() - 1)),
        )
    }
}

/// The multiplier of axis `axis`.
pub fn axis_multiplier(axis: usize) -> (prime: u128)
    requires
        axis < 4,
    ensures
        prime == axis_prime(axis as int),
{
    if axis == 0 {
        X_PRIME
    } else if axis == 1 {
        Y_PRIME
    } else if axis == 2 {
        Z_PRIME
    } else {
        W_PRIME
    }
}

/// Combines a seed, an octree level and a lattice position of up to four
/// axes into one key.
pub fn position_hash<const N: usize>(seed: Seed, level: i8, position: [i128; N]) -> (key: u128)
    requires
        N <= 4,
    ensures
        key == lattice_key(base_key(seed@, level, N as nat), position@),
{
    let level_bits: u128 = level as i128 as u128;
    let dimension: u128 = N as u128;
    let mut key: u128 = seed.value().wrapping_add(level_bits.wrapping_mul(LEVEL_PRIME)).wrapping_add(
        dimension.wrapping_mul(DIMENSION_PRIME),
    );
    let mut axis: usize = 0;
    proof {
        assert(position@.take(0) =~= Seq::<i128>::empty());
    }
    while axis < N
        invariant
            axis <= N <= 4,
            position@.len() == N,
            key == lattice_key(base_key(seed@, level, N as nat), position@.take(axis as int)),
        decreases N - axis,
    {
        proof {
            assert(position@.take(axis + 1).drop_last() =~= position@.take(axis as int));
        }
        key = key.wrapping_add((position[axis] as u128).wrapping_mul(axis_multiplier(axis)));
        axis += 1;
    }
    proof {
        assert(position@.take(N as int) =~= position@);
    }
    key
}

/// Bit `axis` of `corner`: the offset of corner `corner` along axis `axis`.
pub open spec fn corner_bit(corner: int, axis: nat) -> i128 {
    ((corner / vstd::arithmetic::power2::pow2(axis) as int) % 2) as i128
}

/// What separates each corner of a 2D lattice cell from the cell's lowest
/// corner: bit `d` of a corner's index is its offset along axis `d`.
pub fn cell_offsets_2d() -> (offsets: [Vector2<i128>; 4])
    ensures
            forall|c: int| 0 <= c < 4 ==> #[trigger] offsets@[c].x == corner_bit(c, 0),
            forall|c: int| 0 <= c < 4 ==> #[trigger] offsets@[c].y == corner_bit(c, 1),
{
    proof {
        vstd::arithmetic::power2::lemma2_to64();
    }
    [
        Vector2::new(0, 0),
        Vector2::new(1, 0),
        Vector2::new(0, 1),
        Vector2::new(1, 1),
    ]
}

/// The position displaced by an offset, each component wrapping.
fn displaced_2d(position: Vector2<i128>, offset: Vector2<i128>) -> (corner: Vector2<i128>)
    ensures
        corner.x == position.x.wrapping_add(offset.x),
        corner.y == position.y.wrapping_add(offset.y),
{
    Vector2::new(position.x.wrapping_add(offset.x), position.y.wrapping_add(offset.y))
}

/// The corners of the 2D lattice cell whose lowest corner is `position`,
/// in the order of `cell_offsets_2d`: corner `c` is `position` displaced
/// by the offsets of `c`, each component wrapping.
pub fn cell_corners_2d(position: Vector2<i128>) -> (corners: [Vector2<i128>; 4])
    ensures
        forall|c: int| 0 <= c < 4 ==> #[trigger] corners@[c].x == position.x.wrapping_add(corner_bit(c, 0)),
        forall|c: int| 0 <= c < 4 ==> #[trigger] corners@[c].y == position.y.wrapping_add(corner_bit(c, 1)),
{
    let offsets = cell_offsets_2d();
    [
        displaced_2d(position, offsets[0]),
        displaced_2d(position, offsets[1]),
        displaced_2d(position, offsets[2]),
        displaced_2d(position, offsets[3]),
    ]
}

/// What separates each corner of a 3D lattice cell from the cell's lowest
/// corner: bit `d` of a corner's index is its offset along axis `d`.
pub fn cell_offsets_3d() -> (offsets: [Vector3<i128>; 8])
    ensures
            forall|c: int| 0 <= c < 8 ==> #[trigger] offsets@[c].x == corner_bit(c, 0),
            forall|c: int| 0 <= c < 8 ==> #[trigger] offsets@[c].y == corner_bit(c, 1),
            forall|c: int| 0 <= c < 8 ==> #[trigger] offsets@[c].z == corner_bit(c, 2),
{
    proof {
        vstd::arithmetic::power2::lemma2_to64();
    }
    [
        Vector3::new(0, 0, 0),
        Vector3::new(1, 0, 0),
        Vector3::new(0, 1, 0),
        Vector3::new(1, 1, 0),
        Vector3::new(0, 0, 1),
        Vector3::new(1, 0, 1),
        Vector3::new(0, 1, 1),
        Vector3::new(1, 1, 1),
    ]
}

/// The position displaced by an offset, each component wrapping.
fn displaced_3d(position: Vector3<i128>, offset: Vector3<i128>) -> (corner: Vector3<i128>)
    ensures
        corner.x == position.x.wrapping_add(offset.x),
        corner.y == position.y.wrapping_add(offset.y),
        corner.z == position.z.wrapping_add(offset.z),
{
    Vector3::new(position.x.wrapping_add(offset.x), position.y.wrapping_add(offset.y), position.z.wrapping_add(offset.z))
}

/// The corners of the 3D lattice cell whose lowest corner is `position`,
/// in the order of `cell_offsets_3d`: corner `c` is `position` displaced
/// by the offsets of `c`, each component wrapping.
pub fn cell_corners_3d(position: Vector3<i128>) -> (corners: [Vector3<i128>; 8])
    ensures
        forall|c: int| 0 <= c < 8 ==> #[trigger] corners@[c].x == position.x.wrapping_add(corner_bit(c, 0)),
        forall|c: int| 0 <= c < 8 ==> #[trigger] corners@[c].y == position.y.wrapping_add(corner_bit(c, 1)),
        forall|c: int| 0 <= c < 8 ==> #[trigger] corners@[c].z == position.z.wrapping_add(corner_bit(c, 2)),
{
    let offsets = cell_offsets_3d();
    [
        displaced_3d(position, offsets[0]),
        displaced_3d(position, offsets[1]),
        displaced_3d(position, offsets[2]),
        displaced_3d(position, offsets[3]),
        displaced_3d(position, offsets[4]),
        displaced_3d(position, offsets[5]),
        displaced_3d(position, offsets[6]),
        displaced_3d(position, offsets[7]),
    ]
}

/// What separates each corner of a 4D lattice cell from the cell's lowest
/// corner: bit `d` of a corner's index is its offset along axis `d`.
pub fn cell_offsets_4d() -> (offsets: [Vector4<i128>; 16])
    ensures
            forall|c: int| 0 <= c < 16 ==> #[trigger] offsets@[c].x == corner_bit(c, 0),
            forall|c: int| 0 <= c < 16 ==> #[trigger] offsets@[c].y == corner_bit(c, 1),
            forall|c: int| 0 <= c < 16 ==> #[trigger] offsets@[c].z == corner_bit(c, 2),
            forall|c: int| 0 <= c < 16 ==> #[trigger] offsets@[c].w == corner_bit(c, 3),
{
    proof {
        vstd::arithmetic::power2::lemma2_to64();
    }
    [
        Vector4::new(0, 0, 0, 0),
        Vector4::new(1, 0, 0, 0),
        Vector4::new(0, 1, 0, 0),
        Vector4::new(1, 1, 0, 0),
        Vector4::new(0, 0, 1, 0),
        Vector4::new(1, 0, 1, 0),
        Vector4::new(0, 1, 1, 0),
        Vector4::new(1, 1, 1, 0),
        Vector4::new(0, 0, 0, 1),
        Vector4::new(1, 0, 0, 1),
        Vector4::new(0, 1, 0, 1),
        Vector4::new(1, 1, 0, 1),
        Vector4::new(0, 0, 1, 1),
        Vector4::new(1, 0, 1, 1),
        Vector4::new(0, 1, 1, 1),
        Vector4::new(1, 1, 1, 1),
    ]
}

/// The position displaced by an offset, each component wrapping.
fn displaced_4d(position: Vector4<i128>, offset: Vector4<i128>) -> (corner: Vector4<i128>)
    ensures
        corner.x == position.x.wrapping_add(offset.x),
        corner.y == position.y.wrapping_add(offset.y),
        corner.z == position.z.wrapping_add(offset.z),
        corner.w == position.w.wrapping_add(offset.w),
{
    Vector4::new(position.x.wrapping_add(offset.x), position.y.wrapping_add(offset.y), position.z.wrapping_add(offset.z), position.w.wrapping_add(offset.w))
}

/// The corners of the 4D lattice cell whose lowest corner is `position`,
/// in the order of `cell_offsets_4d`: corner `c` is `position` displaced
/// by the offsets of `c`, each component wrapping.
pub fn cell_corners_4d(position: Vector4<i128>) -> (corners: [Vector4<i128>; 16])
    ensures
        forall|c: int| 0 <= c < 16 ==> #[trigger] corners@[c].x == position.x.wrapping_add(corner_bit(c, 0)),
        forall|c: int| 0 <= c < 16 ==> #[trigger] corners@[c].y == position.y.wrapping_add(corner_bit(c, 1)),
        forall|c: int| 0 <= c < 16 ==> #[trigger] corners@[c].z == position.z.wrapping_add(corner_bit(c, 2)),
        forall|c: int| 0 <= c < 16 ==> #[trigger] corners@[c].w == position.w.wrapping_add(corner_bit(c, 3)),
{
    let offsets = cell_offsets_4d();
    [
        displaced_4d(position, offsets[0]),
        displaced_4d(position, offsets[1]),
        displaced_4d(position, offsets[2]),
        displaced_4d(position, offsets[3]),
        displaced_4d(position, offsets[4]),
        displaced_4d(position, offsets[5]),
        displaced_4d(position, offsets[6]),
        displaced_4d(position, offsets[7]),
        displaced_4d(position, offsets[8]),
        displaced_4d(position, offsets[9]),
        displaced_4d(position, offsets[10]),
        displaced_4d(position, offsets[11]),
        displaced_4d(position, offsets[12]),
        displaced_4d(position, offsets[13]),
        displaced_4d(position, offsets[14]),
        displaced_4d(position, offsets[15]),
    ]
}

} // verus!
