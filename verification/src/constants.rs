//! Tags, masks and levels of the binary format.

use vstd::prelude::*;

verus! {

// Container header
pub const ARRAY_PREFIX: u8 = 0x80;
pub const OBJECT_PREFIX: u8 = 0x40;
pub const SCALAR_PREFIX: u8 = 0x20;

pub const ARRAY_CONTAINER_TAG: u32 = 0x80000000;
pub const OBJECT_CONTAINER_TAG: u32 = 0x40000000;
pub const SCALAR_CONTAINER_TAG: u32 = 0x20000000;

pub const CONTAINER_HEADER_TYPE_MASK: u32 = 0xE0000000;
pub const CONTAINER_HEADER_LEN_MASK: u32 = 0x1FFFFFFF;

// JEntry
pub const NULL_TAG: u32 = 0x00000000;
pub const STRING_TAG: u32 = 0x10000000;
pub const NUMBER_TAG: u32 = 0x20000000;
pub const FALSE_TAG: u32 = 0x30000000;
pub const TRUE_TAG: u32 = 0x40000000;
pub const CONTAINER_TAG: u32 = 0x50000000;

pub const JENTRY_IS_OFF_FLAG: u32 = 0x80000000;
pub const JENTRY_TYPE_MASK: u32 = 0x70000000;
pub const JENTRY_OFF_LEN_MASK: u32 = 0x0FFFFFFF;

// Number payload
pub const NUMBER_ZERO: u8 = 0x00;
pub const NUMBER_NAN: u8 = 0x10;
pub const NUMBER_INF: u8 = 0x20;
pub const NUMBER_NEG_INF: u8 = 0x30;
pub const NUMBER_INT: u8 = 0x40;
pub const NUMBER_UINT: u8 = 0x50;
pub const NUMBER_FLOAT: u8 = 0x60;

// Escaped characters of JSON text
pub const BS: u8 = 0x5C;
pub const QU: u8 = 0x22;
pub const SD: u8 = 0x2F;
pub const BB: u8 = 0x08;
pub const FF: u8 = 0x0C;
pub const NN: u8 = 0x0A;
pub const RR: u8 = 0x0D;
pub const TT: u8 = 0x09;

// Levels of the total order, greatest first
pub const NULL_LEVEL: u8 = 7;
pub const ARRAY_LEVEL: u8 = 6;
pub const OBJECT_LEVEL: u8 = 5;
pub const STRING_LEVEL: u8 = 4;
pub const NUMBER_LEVEL: u8 = 3;
pub const TRUE_LEVEL: u8 = 2;
pub const FALSE_LEVEL: u8 = 1;
pub const INVALID_LEVEL: u8 = 0;

} // verus!
