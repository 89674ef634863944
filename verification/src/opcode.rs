//! Opcodes of the byte form of a density function tree. A tag byte precedes
//! each node; its arguments follow inline, depth first. Numbers are stable:
//! never renumber, add at the end.

use vstd::prelude::*;

verus! {

pub const CONSTANT: u8 = 0x00;

pub const ADD: u8 = 0x01;

pub const MUL: u8 = 0x02;

pub const MIN: u8 = 0x03;

pub const MAX: u8 = 0x04;

pub const ABS: u8 = 0x05;

pub const SQUARE: u8 = 0x06;

pub const CUBE: u8 = 0x07;

pub const HALF_NEGATIVE: u8 = 0x08;

pub const QUARTER_NEGATIVE: u8 = 0x09;

pub const INVERT: u8 = 0x0A;

pub const SQUEEZE: u8 = 0x0B;

pub const CLAMP: u8 = 0x0C;

pub const Y_CLAMPED_GRADIENT: u8 = 0x0D;

pub const RANGE_CHOICE: u8 = 0x0E;

pub const MARKER: u8 = 0x0F;

pub const NOISE: u8 = 0x10;

pub const SHIFT: u8 = 0x11;

pub const SHIFT_A: u8 = 0x12;

pub const SHIFT_B: u8 = 0x13;

pub const SHIFTED_NOISE: u8 = 0x14;

pub const WEIRD_SCALED_SAMPLER: u8 = 0x15;

pub const SPLINE: u8 = 0x16;

pub const BLENDED_NOISE: u8 = 0x17;

pub const FIND_TOP_SURFACE: u8 = 0x18;

pub const END_ISLAND: u8 = 0x19;

pub const INTERVAL_SELECT: u8 = 0x1A;

// Splines have opcodes of their own.
pub const SPLINE_CONSTANT: u8 = 0x00;

pub const SPLINE_MULTIPOINT: u8 = 0x01;

pub const MARKER_INTERPOLATED: u8 = 0;

pub const MARKER_FLAT_CACHE: u8 = 1;

pub const MARKER_CACHE_2D: u8 = 2;

pub const MARKER_CACHE_ONCE: u8 = 3;

pub const MARKER_CACHE_ALL_IN_CELL: u8 = 4;

pub const RARITY_TYPE1: u8 = 0;

pub const RARITY_TYPE2: u8 = 1;

} // verus!
