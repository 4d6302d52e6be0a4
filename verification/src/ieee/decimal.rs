//! The words of decimal numbers: `N0_04` is 0.04, `M0_2` is -0.2, each as the nearest value of
//! single precision, and with a leading `D` of double precision.

use vstd::prelude::*;

verus! {

pub const M165: u32 = 0xc325_0000;

pub const M10: u32 = 0xc120_0000;

pub const M5: u32 = 0xc0a0_0000;

pub const M0_6: u32 = 0xbf19_999a;

pub const M0_3: u32 = 0xbe99_999a;

pub const M0_25: u32 = 0xbe80_0000;

pub const M0_2: u32 = 0xbe4c_cccd;

pub const N0_000001: u32 = 0x3586_37bd;

pub const N0_00002: u32 = 0x37a7_c5ac;

pub const N0_0001: u32 = 0x38d1_b717;

pub const N0_001: u32 = 0x3a83_126f;

pub const N0_007: u32 = 0x3be5_6042;

pub const N0_01: u32 = 0x3c23_d70a;

pub const N0_02: u32 = 0x3ca3_d70a;

pub const N0_025: u32 = 0x3ccc_cccd;

pub const N0_035: u32 = 0x3d0f_5c29;

pub const N0_04: u32 = 0x3d23_d70a;

pub const N0_08: u32 = 0x3da3_d70a;

pub const N0_1: u32 = 0x3dcc_cccd;

pub const N0_114: u32 = 0x3de9_78d5;

pub const N0_12: u32 = 0x3df5_c28f;

pub const N0_125: u32 = 0x3e00_0000;

pub const N0_15: u32 = 0x3e19_999a;

pub const N0_18: u32 = 0x3e38_51ec;

pub const N0_20: u32 = 0x3e4c_cccd;

pub const N0_2: u32 = 0x3e4c_cccd;

pub const N0_25: u32 = 0x3e80_0000;

pub const N0_299: u32 = 0x3e99_1687;

pub const N0_3: u32 = 0x3e99_999a;

pub const N0_35: u32 = 0x3eb3_3333;

pub const N0_385: u32 = 0x3ec5_1eb8;

pub const N0_40: u32 = 0x3ecc_cccd;

pub const N0_4: u32 = 0x3ecc_cccd;

pub const N0_45: u32 = 0x3ee6_6666;

pub const N0_5: u32 = 0x3f00_0000;

pub const N0_55: u32 = 0x3f0c_cccd;

pub const N0_587: u32 = 0x3f16_45a2;

pub const N0_6: u32 = 0x3f19_999a;

pub const N0_62: u32 = 0x3f1e_b852;

pub const N0_65: u32 = 0x3f26_6666;

pub const N0_7: u32 = 0x3f33_3333;

pub const N0_75: u32 = 0x3f40_0000;

pub const N0_8: u32 = 0x3f4c_cccd;

pub const N0_86: u32 = 0x3f5c_28f6;

pub const N0_87: u32 = 0x3f5e_b852;

pub const N1_05: u32 = 0x3f86_6666;

pub const N1_2: u32 = 0x3f99_999a;

pub const N1_25: u32 = 0x3fa0_0000;

pub const N1_4: u32 = 0x3fb3_3333;

pub const N1_45: u32 = 0x3fb9_999a;

pub const N1_5: u32 = 0x3fc0_0000;

pub const N1_6: u32 = 0x3fcc_cccd;

pub const N1_65: u32 = 0x3fd3_3333;

pub const N1_8: u32 = 0x3fe6_6666;

pub const N2: u32 = 0x4000_0000;

pub const N2_2: u32 = 0x400c_cccd;

pub const N2_5: u32 = 0x4020_0000;

pub const N3: u32 = 0x4040_0000;

pub const N3_5: u32 = 0x4060_0000;

pub const N4: u32 = 0x4080_0000;

pub const N5: u32 = 0x40a0_0000;

pub const N6: u32 = 0x40c0_0000;

pub const N8: u32 = 0x4100_0000;

pub const N10: u32 = 0x4120_0000;

pub const N12: u32 = 0x4140_0000;

pub const N18: u32 = 0x4190_0000;

pub const N20: u32 = 0x41a0_0000;

pub const N32: u32 = 0x4200_0000;

pub const N60: u32 = 0x4270_0000;

pub const N75: u32 = 0x4296_0000;

pub const N90: u32 = 0x42b4_0000;

pub const N120: u32 = 0x42f0_0000;

pub const N145: u32 = 0x4311_0000;

pub const N200: u32 = 0x4348_0000;

pub const N220: u32 = 0x435c_0000;

pub const N235: u32 = 0x436b_0000;

pub const N250: u32 = 0x437a_0000;

pub const N300: u32 = 0x4396_0000;

pub const N7500: u32 = 0x45ea_6000;

pub const N99999: u32 = 0x47c3_4f80;

pub const N9999999: u32 = 0x4b18_967f;

pub const DN0_00000001: u64 = 0x3e45_798e_e230_8c3a;

pub const DN0_000001: u64 = 0x3eb0_c6f7_a0b5_ed8d;

pub const DN0_0001: u64 = 0x3f1a_36e2_eb1c_432d;

pub const DN0_1: u64 = 0x3fb9_9999_9999_999a;

pub const DN0_5: u64 = 0x3fe0_0000_0000_0000;

pub const DN0_9: u64 = 0x3fec_cccc_cccc_cccd;

pub const DN0_99: u64 = 0x3fef_ae14_7ae1_47ae;

pub const DN1000000: u64 = 0x412e_8480_0000_0000;

} // verus!
