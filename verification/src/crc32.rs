//! CRC-32, as zlib and PKZIP have it.

use vstd::prelude::*;

use crate::constants::{CRC32_INIT, CRC32_POLY};

verus! {

/// The remainders of the byte values.
pub const CRC32_TABLE: [u32; 256] = [
    0x00000000, 0x77073096, 0xee0e612c, 0x990951ba, 0x076dc419, 0x706af48f, 0xe963a535, 0x9e6495a3,
    0x0edb8832, 0x79dcb8a4, 0xe0d5e91e, 0x97d2d988, 0x09b64c2b, 0x7eb17cbd, 0xe7b82d07, 0x90bf1d91,
    0x1db71064, 0x6ab020f2, 0xf3b97148, 0x84be41de, 0x1adad47d, 0x6ddde4eb, 0xf4d4b551, 0x83d385c7,
    0x136c9856, 0x646ba8c0, 0xfd62f97a, 0x8a65c9ec, 0x14015c4f, 0x63066cd9, 0xfa0f3d63, 0x8d080df5,
    0x3b6e20c8, 0x4c69105e, 0xd56041e4, 0xa2677172, 0x3c03e4d1, 0x4b04d447, 0xd20d85fd, 0xa50ab56b,
    0x35b5a8fa, 0x42b2986c, 0xdbbbc9d6, 0xacbcf940, 0x32d86ce3, 0x45df5c75, 0xdcd60dcf, 0xabd13d59,
    0x26d930ac, 0x51de003a, 0xc8d75180, 0xbfd06116, 0x21b4f4b5, 0x56b3c423, 0xcfba9599, 0xb8bda50f,
    0x2802b89e, 0x5f058808, 0xc60cd9b2, 0xb10be924, 0x2f6f7c87, 0x58684c11, 0xc1611dab, 0xb6662d3d,
    0x76dc4190, 0x01db7106, 0x98d220bc, 0xefd5102a, 0x71b18589, 0x06b6b51f, 0x9fbfe4a5, 0xe8b8d433,
    0x7807c9a2, 0x0f00f934, 0x9609a88e, 0xe10e9818, 0x7f6a0dbb, 0x086d3d2d, 0x91646c97, 0xe6635c01,
    0x6b6b51f4, 0x1c6c6162, 0x856530d8, 0xf262004e, 0x6c0695ed, 0x1b01a57b, 0x8208f4c1, 0xf50fc457,
    0x65b0d9c6, 0x12b7e950, 0x8bbeb8ea, 0xfcb9887c, 0x62dd1ddf, 0x15da2d49, 0x8cd37cf3, 0xfbd44c65,
    0x4db26158, 0x3ab551ce, 0xa3bc0074, 0xd4bb30e2, 0x4adfa541, 0x3dd895d7, 0xa4d1c46d, 0xd3d6f4fb,
    0x4369e96a, 0x346ed9fc, 0xad678846, 0xda60b8d0, 0x44042d73, 0x33031de5, 0xaa0a4c5f, 0xdd0d7cc9,
    0x5005713c, 0x270241aa, 0xbe0b1010, 0xc90c2086, 0x5768b525, 0x206f85b3, 0xb966d409, 0xce61e49f,
    0x5edef90e, 0x29d9c998, 0xb0d09822, 0xc7d7a8b4, 0x59b33d17, 0x2eb40d81, 0xb7bd5c3b, 0xc0ba6cad,
    0xedb88320, 0x9abfb3b6, 0x03b6e20c, 0x74b1d29a, 0xead54739, 0x9dd277af, 0x04db2615, 0x73dc1683,
    0xe3630b12, 0x94643b84, 0x0d6d6a3e, 0x7a6a5aa8, 0xe40ecf0b, 0x9309ff9d, 0x0a00ae27, 0x7d079eb1,
    0xf00f9344, 0x8708a3d2, 0x1e01f268, 0x6906c2fe, 0xf762575d, 0x806567cb, 0x196c3671, 0x6e6b06e7,
    0xfed41b76, 0x89d32be0, 0x10da7a5a, 0x67dd4acc, 0xf9b9df6f, 0x8ebeeff9, 0x17b7be43, 0x60b08ed5,
    0xd6d6a3e8, 0xa1d1937e, 0x38d8c2c4, 0x4fdff252, 0xd1bb67f1, 0xa6bc5767, 0x3fb506dd, 0x48b2364b,
    0xd80d2bda, 0xaf0a1b4c, 0x36034af6, 0x41047a60, 0xdf60efc3, 0xa867df55, 0x316e8eef, 0x4669be79,
    0xcb61b38c, 0xbc66831a, 0x256fd2a0, 0x5268e236, 0xcc0c7795, 0xbb0b4703, 0x220216b9, 0x5505262f,
    0xc5ba3bbe, 0xb2bd0b28, 0x2bb45a92, 0x5cb36a04, 0xc2d7ffa7, 0xb5d0cf31, 0x2cd99e8b, 0x5bdeae1d,
    0x9b64c2b0, 0xec63f226, 0x756aa39c, 0x026d930a, 0x9c0906a9, 0xeb0e363f, 0x72076785, 0x05005713,
    0x95bf4a82, 0xe2b87a14, 0x7bb12bae, 0x0cb61b38, 0x92d28e9b, 0xe5d5be0d, 0x7cdcefb7, 0x0bdbdf21,
    0x86d3d2d4, 0xf1d4e242, 0x68ddb3f8, 0x1fda836e, 0x81be16cd, 0xf6b9265b, 0x6fb077e1, 0x18b74777,
    0x88085ae6, 0xff0f6a70, 0x66063bca, 0x11010b5c, 0x8f659eff, 0xf862ae69, 0x616bffd3, 0x166ccf45,
    0xa00ae278, 0xd70dd2ee, 0x4e048354, 0x3903b3c2, 0xa7672661, 0xd06016f7, 0x4969474d, 0x3e6e77db,
    0xaed16a4a, 0xd9d65adc, 0x40df0b66, 0x37d83bf0, 0xa9bcae53, 0xdebb9ec5, 0x47b2cf7f, 0x30b5ffe9,
    0xbdbdf21c, 0xcabac28a, 0x53b39330, 0x24b4a3a6, 0xbad03605, 0xcdd70693, 0x54de5729, 0x23d967bf,
    0xb3667a2e, 0xc4614ab8, 0x5d681b02, 0x2a6f2b94, 0xb40bbe37, 0xc30c8ea1, 0x5a05df1b, 0x2d02ef8d,
];

/// One bit goes through the register.
pub open spec fn bit_step(c: u32) -> u32 {
    if c & 1 != 0 {
        CRC32_POLY ^ (c >> 1)
    } else {
        c >> 1
    }
}

/// Eight bits go through the register.
#[verifier::opaque]
pub open spec fn byte_step(c: u32) -> u32 {
    bit_step(bit_step(bit_step(bit_step(bit_step(bit_step(bit_step(bit_step(c))))))))
}

/// The register after the bytes of `data`.
pub open spec fn register(c: u32, data: Seq<u8>) -> u32
    decreases data.len(),
{
    if data.len() == 0 {
        c
    } else {
        byte_step(register(c, data.drop_last()) ^ data.last() as u32)
    }
}

/// The checksum of `data`.
pub open spec fn checksum(data: Seq<u8>) -> u32 {
    !register(CRC32_INIT, data)
}

proof fn lemma_remainders()
    by (bit_vector)
    ensures
        byte_step(0) == 0x00000000,
        byte_step(1) == 0x77073096,
        byte_step(2) == 0xee0e612c,
        byte_step(3) == 0x990951ba,
        byte_step(4) == 0x076dc419,
        byte_step(5) == 0x706af48f,
        byte_step(6) == 0xe963a535,
        byte_step(7) == 0x9e6495a3,
        byte_step(8) == 0x0edb8832,
        byte_step(9) == 0x79dcb8a4,
        byte_step(10) == 0xe0d5e91e,
        byte_step(11) == 0x97d2d988,
        byte_step(12) == 0x09b64c2b,
        byte_step(13) == 0x7eb17cbd,
        byte_step(14) == 0xe7b82d07,
        byte_step(15) == 0x90bf1d91,
        byte_step(16) == 0x1db71064,
        byte_step(17) == 0x6ab020f2,
        byte_step(18) == 0xf3b97148,
        byte_step(19) == 0x84be41de,
        byte_step(20) == 0x1adad47d,
        byte_step(21) == 0x6ddde4eb,
        byte_step(22) == 0xf4d4b551,
        byte_step(23) == 0x83d385c7,
        byte_step(24) == 0x136c9856,
        byte_step(25) == 0x646ba8c0,
        byte_step(26) == 0xfd62f97a,
        byte_step(27) == 0x8a65c9ec,
        byte_step(28) == 0x14015c4f,
        byte_step(29) == 0x63066cd9,
        byte_step(30) == 0xfa0f3d63,
        byte_step(31) == 0x8d080df5,
        byte_step(32) == 0x3b6e20c8,
        byte_step(33) == 0x4c69105e,
        byte_step(34) == 0xd56041e4,
        byte_step(35) == 0xa2677172,
        byte_step(36) == 0x3c03e4d1,
        byte_step(37) == 0x4b04d447,
        byte_step(38) == 0xd20d85fd,
        byte_step(39) == 0xa50ab56b,
        byte_step(40) == 0x35b5a8fa,
        byte_step(41) == 0x42b2986c,
        byte_step(42) == 0xdbbbc9d6,
        byte_step(43) == 0xacbcf940,
        byte_step(44) == 0x32d86ce3,
        byte_step(45) == 0x45df5c75,
        byte_step(46) == 0xdcd60dcf,
        byte_step(47) == 0xabd13d59,
        byte_step(48) == 0x26d930ac,
        byte_step(49) == 0x51de003a,
        byte_step(50) == 0xc8d75180,
        byte_step(51) == 0xbfd06116,
        byte_step(52) == 0x21b4f4b5,
        byte_step(53) == 0x56b3c423,
        byte_step(54) == 0xcfba9599,
        byte_step(55) == 0xb8bda50f,
        byte_step(56) == 0x2802b89e,
        byte_step(57) == 0x5f058808,
        byte_step(58) == 0xc60cd9b2,
        byte_step(59) == 0xb10be924,
        byte_step(60) == 0x2f6f7c87,
        byte_step(61) == 0x58684c11,
        byte_step(62) == 0xc1611dab,
        byte_step(63) == 0xb6662d3d,
        byte_step(64) == 0x76dc4190,
        byte_step(65) == 0x01db7106,
        byte_step(66) == 0x98d220bc,
        byte_step(67) == 0xefd5102a,
        byte_step(68) == 0x71b18589,
        byte_step(69) == 0x06b6b51f,
        byte_step(70) == 0x9fbfe4a5,
        byte_step(71) == 0xe8b8d433,
        byte_step(72) == 0x7807c9a2,
        byte_step(73) == 0x0f00f934,
        byte_step(74) == 0x9609a88e,
        byte_step(75) == 0xe10e9818,
        byte_step(76) == 0x7f6a0dbb,
        byte_step(77) == 0x086d3d2d,
        byte_step(78) == 0x91646c97,
        byte_step(79) == 0xe6635c01,
        byte_step(80) == 0x6b6b51f4,
        byte_step(81) == 0x1c6c6162,
        byte_step(82) == 0x856530d8,
        byte_step(83) == 0xf262004e,
        byte_step(84) == 0x6c0695ed,
        byte_step(85) == 0x1b01a57b,
        byte_step(86) == 0x8208f4c1,
        byte_step(87) == 0xf50fc457,
        byte_step(88) == 0x65b0d9c6,
        byte_step(89) == 0x12b7e950,
        byte_step(90) == 0x8bbeb8ea,
        byte_step(91) == 0xfcb9887c,
        byte_step(92) == 0x62dd1ddf,
        byte_step(93) == 0x15da2d49,
        byte_step(94) == 0x8cd37cf3,
        byte_step(95) == 0xfbd44c65,
        byte_step(96) == 0x4db26158,
        byte_step(97) == 0x3ab551ce,
        byte_step(98) == 0xa3bc0074,
        byte_step(99) == 0xd4bb30e2,
        byte_step(100) == 0x4adfa541,
        byte_step(101) == 0x3dd895d7,
        byte_step(102) == 0xa4d1c46d,
        byte_step(103) == 0xd3d6f4fb,
        byte_step(104) == 0x4369e96a,
        byte_step(105) == 0x346ed9fc,
        byte_step(106) == 0xad678846,
        byte_step(107) == 0xda60b8d0,
        byte_step(108) == 0x44042d73,
        byte_step(109) == 0x33031de5,
        byte_step(110) == 0xaa0a4c5f,
        byte_step(111) == 0xdd0d7cc9,
        byte_step(112) == 0x5005713c,
        byte_step(113) == 0x270241aa,
        byte_step(114) == 0xbe0b1010,
        byte_step(115) == 0xc90c2086,
        byte_step(116) == 0x5768b525,
        byte_step(117) == 0x206f85b3,
        byte_step(118) == 0xb966d409,
        byte_step(119) == 0xce61e49f,
        byte_step(120) == 0x5edef90e,
        byte_step(121) == 0x29d9c998,
        byte_step(122) == 0xb0d09822,
        byte_step(123) == 0xc7d7a8b4,
        byte_step(124) == 0x59b33d17,
        byte_step(125) == 0x2eb40d81,
        byte_step(126) == 0xb7bd5c3b,
        byte_step(127) == 0xc0ba6cad,
        byte_step(128) == 0xedb88320,
        byte_step(129) == 0x9abfb3b6,
        byte_step(130) == 0x03b6e20c,
        byte_step(131) == 0x74b1d29a,
        byte_step(132) == 0xead54739,
        byte_step(133) == 0x9dd277af,
        byte_step(134) == 0x04db2615,
        byte_step(135) == 0x73dc1683,
        byte_step(136) == 0xe3630b12,
        byte_step(137) == 0x94643b84,
        byte_step(138) == 0x0d6d6a3e,
        byte_step(139) == 0x7a6a5aa8,
        byte_step(140) == 0xe40ecf0b,
        byte_step(141) == 0x9309ff9d,
        byte_step(142) == 0x0a00ae27,
        byte_step(143) == 0x7d079eb1,
        byte_step(144) == 0xf00f9344,
        byte_step(145) == 0x8708a3d2,
        byte_step(146) == 0x1e01f268,
        byte_step(147) == 0x6906c2fe,
        byte_step(148) == 0xf762575d,
        byte_step(149) == 0x806567cb,
        byte_step(150) == 0x196c3671,
        byte_step(151) == 0x6e6b06e7,
        byte_step(152) == 0xfed41b76,
        byte_step(153) == 0x89d32be0,
        byte_step(154) == 0x10da7a5a,
        byte_step(155) == 0x67dd4acc,
        byte_step(156) == 0xf9b9df6f,
        byte_step(157) == 0x8ebeeff9,
        byte_step(158) == 0x17b7be43,
        byte_step(159) == 0x60b08ed5,
        byte_step(160) == 0xd6d6a3e8,
        byte_step(161) == 0xa1d1937e,
        byte_step(162) == 0x38d8c2c4,
        byte_step(163) == 0x4fdff252,
        byte_step(164) == 0xd1bb67f1,
        byte_step(165) == 0xa6bc5767,
        byte_step(166) == 0x3fb506dd,
        byte_step(167) == 0x48b2364b,
        byte_step(168) == 0xd80d2bda,
        byte_step(169) == 0xaf0a1b4c,
        byte_step(170) == 0x36034af6,
        byte_step(171) == 0x41047a60,
        byte_step(172) == 0xdf60efc3,
        byte_step(173) == 0xa867df55,
        byte_step(174) == 0x316e8eef,
        byte_step(175) == 0x4669be79,
        byte_step(176) == 0xcb61b38c,
        byte_step(177) == 0xbc66831a,
        byte_step(178) == 0x256fd2a0,
        byte_step(179) == 0x5268e236,
        byte_step(180) == 0xcc0c7795,
        byte_step(181) == 0xbb0b4703,
        byte_step(182) == 0x220216b9,
        byte_step(183) == 0x5505262f,
        byte_step(184) == 0xc5ba3bbe,
        byte_step(185) == 0xb2bd0b28,
        byte_step(186) == 0x2bb45a92,
        byte_step(187) == 0x5cb36a04,
        byte_step(188) == 0xc2d7ffa7,
        byte_step(189) == 0xb5d0cf31,
        byte_step(190) == 0x2cd99e8b,
        byte_step(191) == 0x5bdeae1d,
        byte_step(192) == 0x9b64c2b0,
        byte_step(193) == 0xec63f226,
        byte_step(194) == 0x756aa39c,
        byte_step(195) == 0x026d930a,
        byte_step(196) == 0x9c0906a9,
        byte_step(197) == 0xeb0e363f,
        byte_step(198) == 0x72076785,
        byte_step(199) == 0x05005713,
        byte_step(200) == 0x95bf4a82,
        byte_step(201) == 0xe2b87a14,
        byte_step(202) == 0x7bb12bae,
        byte_step(203) == 0x0cb61b38,
        byte_step(204) == 0x92d28e9b,
        byte_step(205) == 0xe5d5be0d,
        byte_step(206) == 0x7cdcefb7,
        byte_step(207) == 0x0bdbdf21,
        byte_step(208) == 0x86d3d2d4,
        byte_step(209) == 0xf1d4e242,
        byte_step(210) == 0x68ddb3f8,
        byte_step(211) == 0x1fda836e,
        byte_step(212) == 0x81be16cd,
        byte_step(213) == 0xf6b9265b,
        byte_step(214) == 0x6fb077e1,
        byte_step(215) == 0x18b74777,
        byte_step(216) == 0x88085ae6,
        byte_step(217) == 0xff0f6a70,
        byte_step(218) == 0x66063bca,
        byte_step(219) == 0x11010b5c,
        byte_step(220) == 0x8f659eff,
        byte_step(221) == 0xf862ae69,
        byte_step(222) == 0x616bffd3,
        byte_step(223) == 0x166ccf45,
        byte_step(224) == 0xa00ae278,
        byte_step(225) == 0xd70dd2ee,
        byte_step(226) == 0x4e048354,
        byte_step(227) == 0x3903b3c2,
        byte_step(228) == 0xa7672661,
        byte_step(229) == 0xd06016f7,
        byte_step(230) == 0x4969474d,
        byte_step(231) == 0x3e6e77db,
        byte_step(232) == 0xaed16a4a,
        byte_step(233) == 0xd9d65adc,
        byte_step(234) == 0x40df0b66,
        byte_step(235) == 0x37d83bf0,
        byte_step(236) == 0xa9bcae53,
        byte_step(237) == 0xdebb9ec5,
        byte_step(238) == 0x47b2cf7f,
        byte_step(239) == 0x30b5ffe9,
        byte_step(240) == 0xbdbdf21c,
        byte_step(241) == 0xcabac28a,
        byte_step(242) == 0x53b39330,
        byte_step(243) == 0x24b4a3a6,
        byte_step(244) == 0xbad03605,
        byte_step(245) == 0xcdd70693,
        byte_step(246) == 0x54de5729,
        byte_step(247) == 0x23d967bf,
        byte_step(248) == 0xb3667a2e,
        byte_step(249) == 0xc4614ab8,
        byte_step(250) == 0x5d681b02,
        byte_step(251) == 0x2a6f2b94,
        byte_step(252) == 0xb40bbe37,
        byte_step(253) == 0xc30c8ea1,
        byte_step(254) == 0x5a05df1b,
        byte_step(255) == 0x2d02ef8d,
{
}

/// The table holds the remainders of the byte values.
pub proof fn lemma_table(i: int)
    requires
        0 <= i < 256,
    ensures
        CRC32_TABLE@[i] == byte_step(i as u32),
{
    lemma_remainders();
}

/// The bits above the lowest eight only move down.
proof fn lemma_low_byte(c: u32, b: u32)
    by (bit_vector)
    requires
        b < 256,
    ensures
        byte_step(c ^ b) == byte_step((c ^ b) & 0xff) ^ (c >> 8),
        (c ^ b) & 0xff < 256,
{
}

/// Going on from where the bytes before left off is the same as all the bytes
/// at once.
pub proof fn lemma_incremental(c: u32, a: Seq<u8>, b: Seq<u8>)
    ensures
        register(register(c, a), b) == register(c, a + b),
    decreases b.len(),
{
    if b.len() == 0 {
        assert(a + b =~= a);
    } else {
        lemma_incremental(c, a, b.drop_last());
        assert((a + b).drop_last() =~= a + b.drop_last());
    }
}

/// A step of the register loses nothing.
proof fn lemma_step_differs(c: u32, d: u32)
    by (bit_vector)
    requires
        c != d,
    ensures
        bit_step(c) != bit_step(d),
{
}

proof fn lemma_byte_step_differs(c: u32, d: u32)
    requires
        c != d,
    ensures
        byte_step(c) != byte_step(d),
{
    reveal(byte_step);
    lemma_step_differs(c, d);
    let (c1, d1) = (bit_step(c), bit_step(d));
    lemma_step_differs(c1, d1);
    let (c2, d2) = (bit_step(c1), bit_step(d1));
    lemma_step_differs(c2, d2);
    let (c3, d3) = (bit_step(c2), bit_step(d2));
    lemma_step_differs(c3, d3);
    let (c4, d4) = (bit_step(c3), bit_step(d3));
    lemma_step_differs(c4, d4);
    let (c5, d5) = (bit_step(c4), bit_step(d4));
    lemma_step_differs(c5, d5);
    let (c6, d6) = (bit_step(c5), bit_step(d5));
    lemma_step_differs(c6, d6);
    lemma_step_differs(bit_step(c6), bit_step(d6));
}

proof fn lemma_xor_differs(c: u32, d: u32, x: u32)
    by (bit_vector)
    ensures
        c ^ x == d ^ x <==> c == d,
        x ^ c == x ^ d <==> c == d,
        !c == !d <==> c == d,
{
}

/// Registers that differ still do after the same bytes.
proof fn lemma_register_differs(c: u32, d: u32, data: Seq<u8>)
    requires
        c != d,
    ensures
        register(c, data) != register(d, data),
    decreases data.len(),
{
    if data.len() > 0 {
        let x = data.last() as u32;
        let e = register(c, data.drop_last());
        let f = register(d, data.drop_last());
        lemma_register_differs(c, d, data.drop_last());
        lemma_xor_differs(e, f, x);
        lemma_byte_step_differs(e ^ x, f ^ x);
    }
}

/// Data that differs in one byte has another checksum.
pub proof fn lemma_one_byte_differs(a: Seq<u8>, x: u8, y: u8, b: Seq<u8>)
    requires
        x != y,
    ensures
        checksum(a + seq![x] + b) != checksum(a + seq![y] + b),
{
    let c = register(CRC32_INIT, a);
    let (ax, ay) = (a + seq![x], a + seq![y]);
    assert(ax.drop_last() =~= a && ay.drop_last() =~= a);
    lemma_xor_differs(x as u32, y as u32, c);
    lemma_byte_step_differs(c ^ x as u32, c ^ y as u32);
    let (p, q) = (register(CRC32_INIT, ax), register(CRC32_INIT, ay));
    lemma_register_differs(p, q, b);
    lemma_incremental(CRC32_INIT, ax, b);
    lemma_incremental(CRC32_INIT, ay, b);
    lemma_xor_differs(register(p, b), register(q, b), 0);
}

/// The register is one of 32 bits that the lowest bit leaves first. Where that
/// bit is set, the polynomial joins in, and a bit of data joins in before.
pub proof fn lemma_register_bits(c: u32, b: u8)
    ensures
        register(c, seq![b]) == bit_step(
            bit_step(bit_step(bit_step(bit_step(bit_step(bit_step(bit_step(c ^ b as u32))))))),
        ),
        register(c, Seq::empty()) == c,
        c % 2 == 0 ==> bit_step(c) == c / 2,
        c % 2 == 1 ==> bit_step(c) == 0xedb8_8320u32 ^ (c / 2),
        checksum(seq![b]) == !register(0xffff_ffff, seq![b]),
{
    reveal(byte_step);
    assert(seq![b].drop_last() =~= Seq::<u8>::empty());
    assert(register(c, seq![b].drop_last()) == c);
    assert((c & 1 == 0 <==> c % 2 == 0) && (c & 1 != 0 <==> c % 2 == 1) && c >> 1 == c / 2)
        by (bit_vector);
}

/// A checksum under way. Holds the register, that is, the checksum before its
/// bits are flipped.
#[derive(Debug, Clone, Copy)]
pub struct Crc32(u32);

impl Crc32 {
    /// The register.
    pub closed spec fn value(self) -> u32 {
        self.0
    }

    pub fn new() -> (c: Self)
        ensures
            c.value() == CRC32_INIT,
    {
        Crc32(CRC32_INIT)
    }

    /// Take more bytes in.
    pub fn update(&mut self, buf: &[u8])
        ensures
            final(self).value() == register(old(self).value(), buf@),
    {
        let mut c: u32 = self.0;
        let mut i: usize = 0;
        while i < buf.len()
            invariant
                i <= buf@.len(),
                c == register(old(self).0, buf@.take(i as int)),
            decreases buf@.len() - i,
        {
            let b: u32 = buf[i] as u32;
            proof {
                lemma_low_byte(c, b);
                lemma_table(((c ^ b) & 0xff) as int);
                assert(buf@.take(i + 1).drop_last() =~= buf@.take(i as int));
            }
            c = CRC32_TABLE[((c ^ b) & 0xff) as usize] ^ (c >> 8);
            i += 1;
        }
        assert(buf@.take(buf@.len() as int) =~= buf@);
        self.0 = c;
    }

    /// The checksum of the bytes so far.
    pub fn finalize(self) -> (crc: u32)
        ensures
            crc == !self.value(),
    {
        !self.0
    }

    /// The register, to go on from later.
    pub fn raw(self) -> (c: u32)
        ensures
            c == self.value(),
    {
        self.0
    }

    /// Go on from a register.
    pub fn from_raw(raw: u32) -> (c: Self)
        ensures
            c.value() == raw,
    {
        Crc32(raw)
    }
}

impl Default for Crc32 {
    fn default() -> (c: Self)
        ensures
            c.value() == CRC32_INIT,
    {
        Self::new()
    }
}

/// The checksum of a slice.
pub fn crc32(buf: &[u8]) -> (crc: u32)
    ensures
        crc == checksum(buf@),
{
    let mut c = Crc32::new();
    c.update(buf);
    c.finalize()
}

} // verus!
