//! Bit patterns of the binary32 numbers that the presets and limits use.

use vstd::prelude::*;

verus! {

/// 0
pub const ZERO: u32 = 0x0000_0000;

/// 0.0015
pub const MILLI_1_5: u32 = 0x3ac4_9ba6;

/// 0.002
pub const MILLI_2: u32 = 0x3b03_126f;

/// 0.0025
pub const MILLI_2_5: u32 = 0x3b23_d70a;

/// 0.03
pub const CENTI_3: u32 = 0x3cf5_c28f;

/// 0.05
pub const CENTI_5: u32 = 0x3d4c_cccd;

/// 0.08
pub const CENTI_8: u32 = 0x3da3_d70a;

/// 0.15
pub const CENTI_15: u32 = 0x3e19_999a;

/// 0.18
pub const CENTI_18: u32 = 0x3e38_51ec;

/// 0.2
pub const CENTI_20: u32 = 0x3e4c_cccd;

/// 0.25
pub const CENTI_25: u32 = 0x3e80_0000;

/// 0.3
pub const CENTI_30: u32 = 0x3e99_999a;

/// 0.35
pub const CENTI_35: u32 = 0x3eb3_3333;

/// 0.45
pub const CENTI_45: u32 = 0x3ee6_6666;

/// 0.5
pub const CENTI_50: u32 = 0x3f00_0000;

/// 0.6
pub const CENTI_60: u32 = 0x3f19_999a;

/// 0.7
pub const CENTI_70: u32 = 0x3f33_3333;

/// 0.75
pub const CENTI_75: u32 = 0x3f40_0000;

/// 0.76
pub const CENTI_76: u32 = 0x3f42_8f5c;

/// 0.8
pub const CENTI_80: u32 = 0x3f4c_cccd;

/// 0.85
pub const CENTI_85: u32 = 0x3f59_999a;

/// 0.9
pub const CENTI_90: u32 = 0x3f66_6666;

/// 0.95
pub const CENTI_95: u32 = 0x3f73_3333;

/// 1
pub const ONE: u32 = 0x3f80_0000;

/// 2
pub const TWO: u32 = 0x4000_0000;

/// 3
pub const THREE: u32 = 0x4040_0000;

/// 4
pub const FOUR: u32 = 0x4080_0000;

/// 8
pub const EIGHT: u32 = 0x4100_0000;

/// 16
pub const SIXTEEN: u32 = 0x4180_0000;

/// 22
pub const TWENTY_TWO: u32 = 0x41b0_0000;

/// 30
pub const THIRTY: u32 = 0x41f0_0000;

/// 40
pub const FORTY: u32 = 0x4220_0000;

/// 50
pub const FIFTY: u32 = 0x4248_0000;

/// 60
pub const SIXTY: u32 = 0x4270_0000;

/// 80
pub const EIGHTY: u32 = 0x42a0_0000;

/// 96
pub const NINETY_SIX: u32 = 0x42c0_0000;

/// 125
pub const N125: u32 = 0x42fa_0000;

/// 128
pub const N128: u32 = 0x4300_0000;

/// 160
pub const N160: u32 = 0x4320_0000;

/// 200
pub const N200: u32 = 0x4348_0000;

/// 400
pub const N400: u32 = 0x43c8_0000;

/// 512
pub const N512: u32 = 0x4400_0000;

/// 6400
pub const N6400: u32 = 0x45c8_0000;

/// 8000
pub const N8000: u32 = 0x45fa_0000;

/// 8500
pub const N8500: u32 = 0x4604_d000;

/// 6371 thousand
pub const GROUND_RADIUS: u32 = 0x4ac2_6d70;

/// 6471 thousand
pub const TOP_RADIUS: u32 = 0x4ac5_7ab0;

/// -35
pub const MINUS_35: u32 = 0xc20c_0000;

/// -60
pub const MINUS_60: u32 = 0xc270_0000;

/// 5.8 millionths
pub const RAYLEIGH_R: u32 = 0x36c2_9d9f;

/// 13.5 millionths
pub const RAYLEIGH_G: u32 = 0x3762_7e0f;

/// 33.1 millionths
pub const RAYLEIGH_B: u32 = 0x380a_d4db;

/// 21 millionths
pub const MIE: u32 = 0x37b0_2928;

} // verus!
