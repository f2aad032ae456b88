//! The bit patterns of the decimals that the rules compare with or hand out.

use vstd::prelude::*;

verus! {

/// The bit pattern of -0.5.
pub const BITS_MINUS_0_5: u32 = 0xbf00_0000;

/// The bit pattern of 0.008.
pub const BITS_0_008: u32 = 0x3c03_126f;

/// The bit pattern of 0.026.
pub const BITS_0_026: u32 = 0x3cd4_fdf4;

/// The bit pattern of 0.028.
pub const BITS_0_028: u32 = 0x3ce5_6042;

/// The bit pattern of 0.03.
pub const BITS_0_03: u32 = 0x3cf5_c28f;

/// The bit pattern of 0.06.
pub const BITS_0_06: u32 = 0x3d75_c28f;

/// The bit pattern of 0.07.
pub const BITS_0_07: u32 = 0x3d8f_5c29;

/// The bit pattern of 0.08.
pub const BITS_0_08: u32 = 0x3da3_d70a;

/// The bit pattern of 0.13.
pub const BITS_0_13: u32 = 0x3e05_1eb8;

/// The bit pattern of 0.15.
pub const BITS_0_15: u32 = 0x3e19_999a;

/// The bit pattern of 0.18.
pub const BITS_0_18: u32 = 0x3e38_51ec;

/// The bit pattern of 0.2.
pub const BITS_0_2: u32 = 0x3e4c_cccd;

/// The bit pattern of 0.22.
pub const BITS_0_22: u32 = 0x3e61_47ae;

/// The bit pattern of 0.24.
pub const BITS_0_24: u32 = 0x3e75_c28f;

/// The bit pattern of 0.25.
pub const BITS_0_25: u32 = 0x3e80_0000;

/// The bit pattern of 0.29.
pub const BITS_0_29: u32 = 0x3e94_7ae1;

/// The bit pattern of 0.3.
pub const BITS_0_3: u32 = 0x3e99_999a;

/// The bit pattern of 0.33.
pub const BITS_0_33: u32 = 0x3ea8_f5c3;

/// The bit pattern of 0.35.
pub const BITS_0_35: u32 = 0x3eb3_3333;

/// The bit pattern of 0.38.
pub const BITS_0_38: u32 = 0x3ec2_8f5c;

/// The bit pattern of 0.4.
pub const BITS_0_4: u32 = 0x3ecc_cccd;

/// The bit pattern of 0.41.
pub const BITS_0_41: u32 = 0x3ed1_eb85;

/// The bit pattern of 0.45.
pub const BITS_0_45: u32 = 0x3ee6_6666;

/// The bit pattern of 0.48.
pub const BITS_0_48: u32 = 0x3ef5_c28f;

/// The bit pattern of 0.49.
pub const BITS_0_49: u32 = 0x3efa_e148;

/// The bit pattern of 0.5.
pub const BITS_0_5: u32 = 0x3f00_0000;

/// The bit pattern of 0.53.
pub const BITS_0_53: u32 = 0x3f07_ae14;

/// The bit pattern of 0.55.
pub const BITS_0_55: u32 = 0x3f0c_cccd;

/// The bit pattern of 0.56.
pub const BITS_0_56: u32 = 0x3f0f_5c29;

/// The bit pattern of 0.59.
pub const BITS_0_59: u32 = 0x3f17_0a3d;

/// The bit pattern of 0.7.
pub const BITS_0_7: u32 = 0x3f33_3333;

/// The bit pattern of 0.75.
pub const BITS_0_75: u32 = 0x3f40_0000;

/// The bit pattern of 0.76.
pub const BITS_0_76: u32 = 0x3f42_8f5c;

/// The bit pattern of 0.8.
pub const BITS_0_8: u32 = 0x3f4c_cccd;

/// The bit pattern of 0.82.
pub const BITS_0_82: u32 = 0x3f51_eb85;

/// The bit pattern of 0.85.
pub const BITS_0_85: u32 = 0x3f59_999a;

/// The bit pattern of 0.9.
pub const BITS_0_9: u32 = 0x3f66_6666;

/// The bit pattern of 0.99.
pub const BITS_0_99: u32 = 0x3f7d_70a4;

} // verus!
