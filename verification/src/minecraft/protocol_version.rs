//! Protocol numbers of well-known versions.

use vstd::prelude::*;

verus! {

pub const V1_8_9: i32 = 47;

pub const V1_12_2: i32 = 340;

pub const V1_16_5: i32 = 754;

pub const V26_1: i32 = 775;

} // verus!
