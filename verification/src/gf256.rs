//! GF(256) modulo `X^8 + X^4 + X^3 + X^2 + 1` (0x11d): its reduction
//! polynomial is primitive, so the field laws hold of the field built from it.
use vstd::prelude::*;
use crate::outcome::Outcome;
use crate::gf::{GaloisField, xtime, exp_at, valid_params};
use crate::field_laws::{primitive, is_power, lemma_tables, law_mult_one, law_mult_zero, law_mult_commutes,
    law_mult_closed, law_mult_distributes, law_mult_assoc, law_div_mult, law_sum_inverse};
use crate::poly_laws::{is_field, elements, law_mult_poly_eval, law_sum_poly_eval, law_mult_poly_distributes};

verus! {

/// Multiplication by `x` modulo 0x11d on each power of `x`.
proof fn lemma_gf256_xtime()
    by (bit_vector)
    ensures
        xtime(1, 285, 256) == 2,
        xtime(2, 285, 256) == 4,
        xtime(4, 285, 256) == 8,
        xtime(8, 285, 256) == 16,
        xtime(16, 285, 256) == 32,
        xtime(32, 285, 256) == 64,
        xtime(64, 285, 256) == 128,
        xtime(128, 285, 256) == 29,
        xtime(29, 285, 256) == 58,
        xtime(58, 285, 256) == 116,
        xtime(116, 285, 256) == 232,
        xtime(232, 285, 256) == 205,
        xtime(205, 285, 256) == 135,
        xtime(135, 285, 256) == 19,
        xtime(19, 285, 256) == 38,
        xtime(38, 285, 256) == 76,
        xtime(76, 285, 256) == 152,
        xtime(152, 285, 256) == 45,
        xtime(45, 285, 256) == 90,
        xtime(90, 285, 256) == 180,
        xtime(180, 285, 256) == 117,
        xtime(117, 285, 256) == 234,
        xtime(234, 285, 256) == 201,
        xtime(201, 285, 256) == 143,
        xtime(143, 285, 256) == 3,
        xtime(3, 285, 256) == 6,
        xtime(6, 285, 256) == 12,
        xtime(12, 285, 256) == 24,
        xtime(24, 285, 256) == 48,
        xtime(48, 285, 256) == 96,
        xtime(96, 285, 256) == 192,
        xtime(192, 285, 256) == 157,
        xtime(157, 285, 256) == 39,
        xtime(39, 285, 256) == 78,
        xtime(78, 285, 256) == 156,
        xtime(156, 285, 256) == 37,
        xtime(37, 285, 256) == 74,
        xtime(74, 285, 256) == 148,
        xtime(148, 285, 256) == 53,
        xtime(53, 285, 256) == 106,
        xtime(106, 285, 256) == 212,
        xtime(212, 285, 256) == 181,
        xtime(181, 285, 256) == 119,
        xtime(119, 285, 256) == 238,
        xtime(238, 285, 256) == 193,
        xtime(193, 285, 256) == 159,
        xtime(159, 285, 256) == 35,
        xtime(35, 285, 256) == 70,
        xtime(70, 285, 256) == 140,
        xtime(140, 285, 256) == 5,
        xtime(5, 285, 256) == 10,
        xtime(10, 285, 256) == 20,
        xtime(20, 285, 256) == 40,
        xtime(40, 285, 256) == 80,
        xtime(80, 285, 256) == 160,
        xtime(160, 285, 256) == 93,
        xtime(93, 285, 256) == 186,
        xtime(186, 285, 256) == 105,
        xtime(105, 285, 256) == 210,
        xtime(210, 285, 256) == 185,
        xtime(185, 285, 256) == 111,
        xtime(111, 285, 256) == 222,
        xtime(222, 285, 256) == 161,
        xtime(161, 285, 256) == 95,
        xtime(95, 285, 256) == 190,
        xtime(190, 285, 256) == 97,
        xtime(97, 285, 256) == 194,
        xtime(194, 285, 256) == 153,
        xtime(153, 285, 256) == 47,
        xtime(47, 285, 256) == 94,
        xtime(94, 285, 256) == 188,
        xtime(188, 285, 256) == 101,
        xtime(101, 285, 256) == 202,
        xtime(202, 285, 256) == 137,
        xtime(137, 285, 256) == 15,
        xtime(15, 285, 256) == 30,
        xtime(30, 285, 256) == 60,
        xtime(60, 285, 256) == 120,
        xtime(120, 285, 256) == 240,
        xtime(240, 285, 256) == 253,
        xtime(253, 285, 256) == 231,
        xtime(231, 285, 256) == 211,
        xtime(211, 285, 256) == 187,
        xtime(187, 285, 256) == 107,
        xtime(107, 285, 256) == 214,
        xtime(214, 285, 256) == 177,
        xtime(177, 285, 256) == 127,
        xtime(127, 285, 256) == 254,
        xtime(254, 285, 256) == 225,
        xtime(225, 285, 256) == 223,
        xtime(223, 285, 256) == 163,
        xtime(163, 285, 256) == 91,
        xtime(91, 285, 256) == 182,
        xtime(182, 285, 256) == 113,
        xtime(113, 285, 256) == 226,
        xtime(226, 285, 256) == 217,
        xtime(217, 285, 256) == 175,
        xtime(175, 285, 256) == 67,
        xtime(67, 285, 256) == 134,
        xtime(134, 285, 256) == 17,
        xtime(17, 285, 256) == 34,
        xtime(34, 285, 256) == 68,
        xtime(68, 285, 256) == 136,
        xtime(136, 285, 256) == 13,
        xtime(13, 285, 256) == 26,
        xtime(26, 285, 256) == 52,
        xtime(52, 285, 256) == 104,
        xtime(104, 285, 256) == 208,
        xtime(208, 285, 256) == 189,
        xtime(189, 285, 256) == 103,
        xtime(103, 285, 256) == 206,
        xtime(206, 285, 256) == 129,
        xtime(129, 285, 256) == 31,
        xtime(31, 285, 256) == 62,
        xtime(62, 285, 256) == 124,
        xtime(124, 285, 256) == 248,
        xtime(248, 285, 256) == 237,
        xtime(237, 285, 256) == 199,
        xtime(199, 285, 256) == 147,
        xtime(147, 285, 256) == 59,
        xtime(59, 285, 256) == 118,
        xtime(118, 285, 256) == 236,
        xtime(236, 285, 256) == 197,
        xtime(197, 285, 256) == 151,
        xtime(151, 285, 256) == 51,
        xtime(51, 285, 256) == 102,
        xtime(102, 285, 256) == 204,
        xtime(204, 285, 256) == 133,
        xtime(133, 285, 256) == 23,
        xtime(23, 285, 256) == 46,
        xtime(46, 285, 256) == 92,
        xtime(92, 285, 256) == 184,
        xtime(184, 285, 256) == 109,
        xtime(109, 285, 256) == 218,
        xtime(218, 285, 256) == 169,
        xtime(169, 285, 256) == 79,
        xtime(79, 285, 256) == 158,
        xtime(158, 285, 256) == 33,
        xtime(33, 285, 256) == 66,
        xtime(66, 285, 256) == 132,
        xtime(132, 285, 256) == 21,
        xtime(21, 285, 256) == 42,
        xtime(42, 285, 256) == 84,
        xtime(84, 285, 256) == 168,
        xtime(168, 285, 256) == 77,
        xtime(77, 285, 256) == 154,
        xtime(154, 285, 256) == 41,
        xtime(41, 285, 256) == 82,
        xtime(82, 285, 256) == 164,
        xtime(164, 285, 256) == 85,
        xtime(85, 285, 256) == 170,
        xtime(170, 285, 256) == 73,
        xtime(73, 285, 256) == 146,
        xtime(146, 285, 256) == 57,
        xtime(57, 285, 256) == 114,
        xtime(114, 285, 256) == 228,
        xtime(228, 285, 256) == 213,
        xtime(213, 285, 256) == 183,
        xtime(183, 285, 256) == 115,
        xtime(115, 285, 256) == 230,
        xtime(230, 285, 256) == 209,
        xtime(209, 285, 256) == 191,
        xtime(191, 285, 256) == 99,
        xtime(99, 285, 256) == 198,
        xtime(198, 285, 256) == 145,
        xtime(145, 285, 256) == 63,
        xtime(63, 285, 256) == 126,
        xtime(126, 285, 256) == 252,
        xtime(252, 285, 256) == 229,
        xtime(229, 285, 256) == 215,
        xtime(215, 285, 256) == 179,
        xtime(179, 285, 256) == 123,
        xtime(123, 285, 256) == 246,
        xtime(246, 285, 256) == 241,
        xtime(241, 285, 256) == 255,
        xtime(255, 285, 256) == 227,
        xtime(227, 285, 256) == 219,
        xtime(219, 285, 256) == 171,
        xtime(171, 285, 256) == 75,
        xtime(75, 285, 256) == 150,
        xtime(150, 285, 256) == 49,
        xtime(49, 285, 256) == 98,
        xtime(98, 285, 256) == 196,
        xtime(196, 285, 256) == 149,
        xtime(149, 285, 256) == 55,
        xtime(55, 285, 256) == 110,
        xtime(110, 285, 256) == 220,
        xtime(220, 285, 256) == 165,
        xtime(165, 285, 256) == 87,
        xtime(87, 285, 256) == 174,
        xtime(174, 285, 256) == 65,
        xtime(65, 285, 256) == 130,
        xtime(130, 285, 256) == 25,
        xtime(25, 285, 256) == 50,
        xtime(50, 285, 256) == 100,
        xtime(100, 285, 256) == 200,
        xtime(200, 285, 256) == 141,
        xtime(141, 285, 256) == 7,
        xtime(7, 285, 256) == 14,
        xtime(14, 285, 256) == 28,
        xtime(28, 285, 256) == 56,
        xtime(56, 285, 256) == 112,
        xtime(112, 285, 256) == 224,
        xtime(224, 285, 256) == 221,
        xtime(221, 285, 256) == 167,
        xtime(167, 285, 256) == 83,
        xtime(83, 285, 256) == 166,
        xtime(166, 285, 256) == 81,
        xtime(81, 285, 256) == 162,
        xtime(162, 285, 256) == 89,
        xtime(89, 285, 256) == 178,
        xtime(178, 285, 256) == 121,
        xtime(121, 285, 256) == 242,
        xtime(242, 285, 256) == 249,
        xtime(249, 285, 256) == 239,
        xtime(239, 285, 256) == 195,
        xtime(195, 285, 256) == 155,
        xtime(155, 285, 256) == 43,
        xtime(43, 285, 256) == 86,
        xtime(86, 285, 256) == 172,
        xtime(172, 285, 256) == 69,
        xtime(69, 285, 256) == 138,
        xtime(138, 285, 256) == 9,
        xtime(9, 285, 256) == 18,
        xtime(18, 285, 256) == 36,
        xtime(36, 285, 256) == 72,
        xtime(72, 285, 256) == 144,
        xtime(144, 285, 256) == 61,
        xtime(61, 285, 256) == 122,
        xtime(122, 285, 256) == 244,
        xtime(244, 285, 256) == 245,
        xtime(245, 285, 256) == 247,
        xtime(247, 285, 256) == 243,
        xtime(243, 285, 256) == 251,
        xtime(251, 285, 256) == 235,
        xtime(235, 285, 256) == 203,
        xtime(203, 285, 256) == 139,
        xtime(139, 285, 256) == 11,
        xtime(11, 285, 256) == 22,
        xtime(22, 285, 256) == 44,
        xtime(44, 285, 256) == 88,
        xtime(88, 285, 256) == 176,
        xtime(176, 285, 256) == 125,
        xtime(125, 285, 256) == 250,
        xtime(250, 285, 256) == 233,
        xtime(233, 285, 256) == 207,
        xtime(207, 285, 256) == 131,
        xtime(131, 285, 256) == 27,
        xtime(27, 285, 256) == 54,
        xtime(54, 285, 256) == 108,
        xtime(108, 285, 256) == 216,
        xtime(216, 285, 256) == 173,
        xtime(173, 285, 256) == 71,
        xtime(71, 285, 256) == 142,
        xtime(142, 285, 256) == 1,
{
}

/// The powers `x^0` to `x^32` modulo 0x11d.
proof fn lemma_gf256_powers_0()
    ensures
        exp_at(0, 285, 256) == 1,
        exp_at(1, 285, 256) == 2,
        exp_at(2, 285, 256) == 4,
        exp_at(3, 285, 256) == 8,
        exp_at(4, 285, 256) == 16,
        exp_at(5, 285, 256) == 32,
        exp_at(6, 285, 256) == 64,
        exp_at(7, 285, 256) == 128,
        exp_at(8, 285, 256) == 29,
        exp_at(9, 285, 256) == 58,
        exp_at(10, 285, 256) == 116,
        exp_at(11, 285, 256) == 232,
        exp_at(12, 285, 256) == 205,
        exp_at(13, 285, 256) == 135,
        exp_at(14, 285, 256) == 19,
        exp_at(15, 285, 256) == 38,
        exp_at(16, 285, 256) == 76,
        exp_at(17, 285, 256) == 152,
        exp_at(18, 285, 256) == 45,
        exp_at(19, 285, 256) == 90,
        exp_at(20, 285, 256) == 180,
        exp_at(21, 285, 256) == 117,
        exp_at(22, 285, 256) == 234,
        exp_at(23, 285, 256) == 201,
        exp_at(24, 285, 256) == 143,
        exp_at(25, 285, 256) == 3,
        exp_at(26, 285, 256) == 6,
        exp_at(27, 285, 256) == 12,
        exp_at(28, 285, 256) == 24,
        exp_at(29, 285, 256) == 48,
        exp_at(30, 285, 256) == 96,
        exp_at(31, 285, 256) == 192,
        exp_at(32, 285, 256) == 157,
{
    assert(exp_at(0, 285, 256) == 1);
    lemma_gf256_xtime();
    assert(exp_at(1, 285, 256) == xtime(exp_at(0, 285, 256), 285, 256));
    assert(exp_at(2, 285, 256) == xtime(exp_at(1, 285, 256), 285, 256));
    assert(exp_at(3, 285, 256) == xtime(exp_at(2, 285, 256), 285, 256));
    assert(exp_at(4, 285, 256) == xtime(exp_at(3, 285, 256), 285, 256));
    assert(exp_at(5, 285, 256) == xtime(exp_at(4, 285, 256), 285, 256));
    assert(exp_at(6, 285, 256) == xtime(exp_at(5, 285, 256), 285, 256));
    assert(exp_at(7, 285, 256) == xtime(exp_at(6, 285, 256), 285, 256));
    assert(exp_at(8, 285, 256) == xtime(exp_at(7, 285, 256), 285, 256));
    assert(exp_at(9, 285, 256) == xtime(exp_at(8, 285, 256), 285, 256));
    assert(exp_at(10, 285, 256) == xtime(exp_at(9, 285, 256), 285, 256));
    assert(exp_at(11, 285, 256) == xtime(exp_at(10, 285, 256), 285, 256));
    assert(exp_at(12, 285, 256) == xtime(exp_at(11, 285, 256), 285, 256));
    assert(exp_at(13, 285, 256) == xtime(exp_at(12, 285, 256), 285, 256));
    assert(exp_at(14, 285, 256) == xtime(exp_at(13, 285, 256), 285, 256));
    assert(exp_at(15, 285, 256) == xtime(exp_at(14, 285, 256), 285, 256));
    assert(exp_at(16, 285, 256) == xtime(exp_at(15, 285, 256), 285, 256));
    assert(exp_at(17, 285, 256) == xtime(exp_at(16, 285, 256), 285, 256));
    assert(exp_at(18, 285, 256) == xtime(exp_at(17, 285, 256), 285, 256));
    assert(exp_at(19, 285, 256) == xtime(exp_at(18, 285, 256), 285, 256));
    assert(exp_at(20, 285, 256) == xtime(exp_at(19, 285, 256), 285, 256));
    assert(exp_at(21, 285, 256) == xtime(exp_at(20, 285, 256), 285, 256));
    assert(exp_at(22, 285, 256) == xtime(exp_at(21, 285, 256), 285, 256));
    assert(exp_at(23, 285, 256) == xtime(exp_at(22, 285, 256), 285, 256));
    assert(exp_at(24, 285, 256) == xtime(exp_at(23, 285, 256), 285, 256));
    assert(exp_at(25, 285, 256) == xtime(exp_at(24, 285, 256), 285, 256));
    assert(exp_at(26, 285, 256) == xtime(exp_at(25, 285, 256), 285, 256));
    assert(exp_at(27, 285, 256) == xtime(exp_at(26, 285, 256), 285, 256));
    assert(exp_at(28, 285, 256) == xtime(exp_at(27, 285, 256), 285, 256));
    assert(exp_at(29, 285, 256) == xtime(exp_at(28, 285, 256), 285, 256));
    assert(exp_at(30, 285, 256) == xtime(exp_at(29, 285, 256), 285, 256));
    assert(exp_at(31, 285, 256) == xtime(exp_at(30, 285, 256), 285, 256));
    assert(exp_at(32, 285, 256) == xtime(exp_at(31, 285, 256), 285, 256));
}

/// The powers `x^32` to `x^64` modulo 0x11d.
proof fn lemma_gf256_powers_1()
    ensures
        exp_at(32, 285, 256) == 157,
        exp_at(33, 285, 256) == 39,
        exp_at(34, 285, 256) == 78,
        exp_at(35, 285, 256) == 156,
        exp_at(36, 285, 256) == 37,
        exp_at(37, 285, 256) == 74,
        exp_at(38, 285, 256) == 148,
        exp_at(39, 285, 256) == 53,
        exp_at(40, 285, 256) == 106,
        exp_at(41, 285, 256) == 212,
        exp_at(42, 285, 256) == 181,
        exp_at(43, 285, 256) == 119,
        exp_at(44, 285, 256) == 238,
        exp_at(45, 285, 256) == 193,
        exp_at(46, 285, 256) == 159,
        exp_at(47, 285, 256) == 35,
        exp_at(48, 285, 256) == 70,
        exp_at(49, 285, 256) == 140,
        exp_at(50, 285, 256) == 5,
        exp_at(51, 285, 256) == 10,
        exp_at(52, 285, 256) == 20,
        exp_at(53, 285, 256) == 40,
        exp_at(54, 285, 256) == 80,
        exp_at(55, 285, 256) == 160,
        exp_at(56, 285, 256) == 93,
        exp_at(57, 285, 256) == 186,
        exp_at(58, 285, 256) == 105,
        exp_at(59, 285, 256) == 210,
        exp_at(60, 285, 256) == 185,
        exp_at(61, 285, 256) == 111,
        exp_at(62, 285, 256) == 222,
        exp_at(63, 285, 256) == 161,
        exp_at(64, 285, 256) == 95,
{
    lemma_gf256_powers_0();
    lemma_gf256_xtime();
    assert(exp_at(33, 285, 256) == xtime(exp_at(32, 285, 256), 285, 256));
    assert(exp_at(34, 285, 256) == xtime(exp_at(33, 285, 256), 285, 256));
    assert(exp_at(35, 285, 256) == xtime(exp_at(34, 285, 256), 285, 256));
    assert(exp_at(36, 285, 256) == xtime(exp_at(35, 285, 256), 285, 256));
    assert(exp_at(37, 285, 256) == xtime(exp_at(36, 285, 256), 285, 256));
    assert(exp_at(38, 285, 256) == xtime(exp_at(37, 285, 256), 285, 256));
    assert(exp_at(39, 285, 256) == xtime(exp_at(38, 285, 256), 285, 256));
    assert(exp_at(40, 285, 256) == xtime(exp_at(39, 285, 256), 285, 256));
    assert(exp_at(41, 285, 256) == xtime(exp_at(40, 285, 256), 285, 256));
    assert(exp_at(42, 285, 256) == xtime(exp_at(41, 285, 256), 285, 256));
    assert(exp_at(43, 285, 256) == xtime(exp_at(42, 285, 256), 285, 256));
    assert(exp_at(44, 285, 256) == xtime(exp_at(43, 285, 256), 285, 256));
    assert(exp_at(45, 285, 256) == xtime(exp_at(44, 285, 256), 285, 256));
    assert(exp_at(46, 285, 256) == xtime(exp_at(45, 285, 256), 285, 256));
    assert(exp_at(47, 285, 256) == xtime(exp_at(46, 285, 256), 285, 256));
    assert(exp_at(48, 285, 256) == xtime(exp_at(47, 285, 256), 285, 256));
    assert(exp_at(49, 285, 256) == xtime(exp_at(48, 285, 256), 285, 256));
    assert(exp_at(50, 285, 256) == xtime(exp_at(49, 285, 256), 285, 256));
    assert(exp_at(51, 285, 256) == xtime(exp_at(50, 285, 256), 285, 256));
    assert(exp_at(52, 285, 256) == xtime(exp_at(51, 285, 256), 285, 256));
    assert(exp_at(53, 285, 256) == xtime(exp_at(52, 285, 256), 285, 256));
    assert(exp_at(54, 285, 256) == xtime(exp_at(53, 285, 256), 285, 256));
    assert(exp_at(55, 285, 256) == xtime(exp_at(54, 285, 256), 285, 256));
    assert(exp_at(56, 285, 256) == xtime(exp_at(55, 285, 256), 285, 256));
    assert(exp_at(57, 285, 256) == xtime(exp_at(56, 285, 256), 285, 256));
    assert(exp_at(58, 285, 256) == xtime(exp_at(57, 285, 256), 285, 256));
    assert(exp_at(59, 285, 256) == xtime(exp_at(58, 285, 256), 285, 256));
    assert(exp_at(60, 285, 256) == xtime(exp_at(59, 285, 256), 285, 256));
    assert(exp_at(61, 285, 256) == xtime(exp_at(60, 285, 256), 285, 256));
    assert(exp_at(62, 285, 256) == xtime(exp_at(61, 285, 256), 285, 256));
    assert(exp_at(63, 285, 256) == xtime(exp_at(62, 285, 256), 285, 256));
    assert(exp_at(64, 285, 256) == xtime(exp_at(63, 285, 256), 285, 256));
}

/// The powers `x^64` to `x^96` modulo 0x11d.
proof fn lemma_gf256_powers_2()
    ensures
        exp_at(64, 285, 256) == 95,
        exp_at(65, 285, 256) == 190,
        exp_at(66, 285, 256) == 97,
        exp_at(67, 285, 256) == 194,
        exp_at(68, 285, 256) == 153,
        exp_at(69, 285, 256) == 47,
        exp_at(70, 285, 256) == 94,
        exp_at(71, 285, 256) == 188,
        exp_at(72, 285, 256) == 101,
        exp_at(73, 285, 256) == 202,
        exp_at(74, 285, 256) == 137,
        exp_at(75, 285, 256) == 15,
        exp_at(76, 285, 256) == 30,
        exp_at(77, 285, 256) == 60,
        exp_at(78, 285, 256) == 120,
        exp_at(79, 285, 256) == 240,
        exp_at(80, 285, 256) == 253,
        exp_at(81, 285, 256) == 231,
        exp_at(82, 285, 256) == 211,
        exp_at(83, 285, 256) == 187,
        exp_at(84, 285, 256) == 107,
        exp_at(85, 285, 256) == 214,
        exp_at(86, 285, 256) == 177,
        exp_at(87, 285, 256) == 127,
        exp_at(88, 285, 256) == 254,
        exp_at(89, 285, 256) == 225,
        exp_at(90, 285, 256) == 223,
        exp_at(91, 285, 256) == 163,
        exp_at(92, 285, 256) == 91,
        exp_at(93, 285, 256) == 182,
        exp_at(94, 285, 256) == 113,
        exp_at(95, 285, 256) == 226,
        exp_at(96, 285, 256) == 217,
{
    lemma_gf256_powers_1();
    lemma_gf256_xtime();
    assert(exp_at(65, 285, 256) == xtime(exp_at(64, 285, 256), 285, 256));
    assert(exp_at(66, 285, 256) == xtime(exp_at(65, 285, 256), 285, 256));
    assert(exp_at(67, 285, 256) == xtime(exp_at(66, 285, 256), 285, 256));
    assert(exp_at(68, 285, 256) == xtime(exp_at(67, 285, 256), 285, 256));
    assert(exp_at(69, 285, 256) == xtime(exp_at(68, 285, 256), 285, 256));
    assert(exp_at(70, 285, 256) == xtime(exp_at(69, 285, 256), 285, 256));
    assert(exp_at(71, 285, 256) == xtime(exp_at(70, 285, 256), 285, 256));
    assert(exp_at(72, 285, 256) == xtime(exp_at(71, 285, 256), 285, 256));
    assert(exp_at(73, 285, 256) == xtime(exp_at(72, 285, 256), 285, 256));
    assert(exp_at(74, 285, 256) == xtime(exp_at(73, 285, 256), 285, 256));
    assert(exp_at(75, 285, 256) == xtime(exp_at(74, 285, 256), 285, 256));
    assert(exp_at(76, 285, 256) == xtime(exp_at(75, 285, 256), 285, 256));
    assert(exp_at(77, 285, 256) == xtime(exp_at(76, 285, 256), 285, 256));
    assert(exp_at(78, 285, 256) == xtime(exp_at(77, 285, 256), 285, 256));
    assert(exp_at(79, 285, 256) == xtime(exp_at(78, 285, 256), 285, 256));
    assert(exp_at(80, 285, 256) == xtime(exp_at(79, 285, 256), 285, 256));
    assert(exp_at(81, 285, 256) == xtime(exp_at(80, 285, 256), 285, 256));
    assert(exp_at(82, 285, 256) == xtime(exp_at(81, 285, 256), 285, 256));
    assert(exp_at(83, 285, 256) == xtime(exp_at(82, 285, 256), 285, 256));
    assert(exp_at(84, 285, 256) == xtime(exp_at(83, 285, 256), 285, 256));
    assert(exp_at(85, 285, 256) == xtime(exp_at(84, 285, 256), 285, 256));
    assert(exp_at(86, 285, 256) == xtime(exp_at(85, 285, 256), 285, 256));
    assert(exp_at(87, 285, 256) == xtime(exp_at(86, 285, 256), 285, 256));
    assert(exp_at(88, 285, 256) == xtime(exp_at(87, 285, 256), 285, 256));
    assert(exp_at(89, 285, 256) == xtime(exp_at(88, 285, 256), 285, 256));
    assert(exp_at(90, 285, 256) == xtime(exp_at(89, 285, 256), 285, 256));
    assert(exp_at(91, 285, 256) == xtime(exp_at(90, 285, 256), 285, 256));
    assert(exp_at(92, 285, 256) == xtime(exp_at(91, 285, 256), 285, 256));
    assert(exp_at(93, 285, 256) == xtime(exp_at(92, 285, 256), 285, 256));
    assert(exp_at(94, 285, 256) == xtime(exp_at(93, 285, 256), 285, 256));
    assert(exp_at(95, 285, 256) == xtime(exp_at(94, 285, 256), 285, 256));
    assert(exp_at(96, 285, 256) == xtime(exp_at(95, 285, 256), 285, 256));
}

/// The powers `x^96` to `x^128` modulo 0x11d.
proof fn lemma_gf256_powers_3()
    ensures
        exp_at(96, 285, 256) == 217,
        exp_at(97, 285, 256) == 175,
        exp_at(98, 285, 256) == 67,
        exp_at(99, 285, 256) == 134,
        exp_at(100, 285, 256) == 17,
        exp_at(101, 285, 256) == 34,
        exp_at(102, 285, 256) == 68,
        exp_at(103, 285, 256) == 136,
        exp_at(104, 285, 256) == 13,
        exp_at(105, 285, 256) == 26,
        exp_at(106, 285, 256) == 52,
        exp_at(107, 285, 256) == 104,
        exp_at(108, 285, 256) == 208,
        exp_at(109, 285, 256) == 189,
        exp_at(110, 285, 256) == 103,
        exp_at(111, 285, 256) == 206,
        exp_at(112, 285, 256) == 129,
        exp_at(113, 285, 256) == 31,
        exp_at(114, 285, 256) == 62,
        exp_at(115, 285, 256) == 124,
        exp_at(116, 285, 256) == 248,
        exp_at(117, 285, 256) == 237,
        exp_at(118, 285, 256) == 199,
        exp_at(119, 285, 256) == 147,
        exp_at(120, 285, 256) == 59,
        exp_at(121, 285, 256) == 118,
        exp_at(122, 285, 256) == 236,
        exp_at(123, 285, 256) == 197,
        exp_at(124, 285, 256) == 151,
        exp_at(125, 285, 256) == 51,
        exp_at(126, 285, 256) == 102,
        exp_at(127, 285, 256) == 204,
        exp_at(128, 285, 256) == 133,
{
    lemma_gf256_powers_2();
    lemma_gf256_xtime();
    assert(exp_at(97, 285, 256) == xtime(exp_at(96, 285, 256), 285, 256));
    assert(exp_at(98, 285, 256) == xtime(exp_at(97, 285, 256), 285, 256));
    assert(exp_at(99, 285, 256) == xtime(exp_at(98, 285, 256), 285, 256));
    assert(exp_at(100, 285, 256) == xtime(exp_at(99, 285, 256), 285, 256));
    assert(exp_at(101, 285, 256) == xtime(exp_at(100, 285, 256), 285, 256));
    assert(exp_at(102, 285, 256) == xtime(exp_at(101, 285, 256), 285, 256));
    assert(exp_at(103, 285, 256) == xtime(exp_at(102, 285, 256), 285, 256));
    assert(exp_at(104, 285, 256) == xtime(exp_at(103, 285, 256), 285, 256));
    assert(exp_at(105, 285, 256) == xtime(exp_at(104, 285, 256), 285, 256));
    assert(exp_at(106, 285, 256) == xtime(exp_at(105, 285, 256), 285, 256));
    assert(exp_at(107, 285, 256) == xtime(exp_at(106, 285, 256), 285, 256));
    assert(exp_at(108, 285, 256) == xtime(exp_at(107, 285, 256), 285, 256));
    assert(exp_at(109, 285, 256) == xtime(exp_at(108, 285, 256), 285, 256));
    assert(exp_at(110, 285, 256) == xtime(exp_at(109, 285, 256), 285, 256));
    assert(exp_at(111, 285, 256) == xtime(exp_at(110, 285, 256), 285, 256));
    assert(exp_at(112, 285, 256) == xtime(exp_at(111, 285, 256), 285, 256));
    assert(exp_at(113, 285, 256) == xtime(exp_at(112, 285, 256), 285, 256));
    assert(exp_at(114, 285, 256) == xtime(exp_at(113, 285, 256), 285, 256));
    assert(exp_at(115, 285, 256) == xtime(exp_at(114, 285, 256), 285, 256));
    assert(exp_at(116, 285, 256) == xtime(exp_at(115, 285, 256), 285, 256));
    assert(exp_at(117, 285, 256) == xtime(exp_at(116, 285, 256), 285, 256));
    assert(exp_at(118, 285, 256) == xtime(exp_at(117, 285, 256), 285, 256));
    assert(exp_at(119, 285, 256) == xtime(exp_at(118, 285, 256), 285, 256));
    assert(exp_at(120, 285, 256) == xtime(exp_at(119, 285, 256), 285, 256));
    assert(exp_at(121, 285, 256) == xtime(exp_at(120, 285, 256), 285, 256));
    assert(exp_at(122, 285, 256) == xtime(exp_at(121, 285, 256), 285, 256));
    assert(exp_at(123, 285, 256) == xtime(exp_at(122, 285, 256), 285, 256));
    assert(exp_at(124, 285, 256) == xtime(exp_at(123, 285, 256), 285, 256));
    assert(exp_at(125, 285, 256) == xtime(exp_at(124, 285, 256), 285, 256));
    assert(exp_at(126, 285, 256) == xtime(exp_at(125, 285, 256), 285, 256));
    assert(exp_at(127, 285, 256) == xtime(exp_at(126, 285, 256), 285, 256));
    assert(exp_at(128, 285, 256) == xtime(exp_at(127, 285, 256), 285, 256));
}

/// The powers `x^128` to `x^160` modulo 0x11d.
proof fn lemma_gf256_powers_4()
    ensures
        exp_at(128, 285, 256) == 133,
        exp_at(129, 285, 256) == 23,
        exp_at(130, 285, 256) == 46,
        exp_at(131, 285, 256) == 92,
        exp_at(132, 285, 256) == 184,
        exp_at(133, 285, 256) == 109,
        exp_at(134, 285, 256) == 218,
        exp_at(135, 285, 256) == 169,
        exp_at(136, 285, 256) == 79,
        exp_at(137, 285, 256) == 158,
        exp_at(138, 285, 256) == 33,
        exp_at(139, 285, 256) == 66,
        exp_at(140, 285, 256) == 132,
        exp_at(141, 285, 256) == 21,
        exp_at(142, 285, 256) == 42,
        exp_at(143, 285, 256) == 84,
        exp_at(144, 285, 256) == 168,
        exp_at(145, 285, 256) == 77,
        exp_at(146, 285, 256) == 154,
        exp_at(147, 285, 256) == 41,
        exp_at(148, 285, 256) == 82,
        exp_at(149, 285, 256) == 164,
        exp_at(150, 285, 256) == 85,
        exp_at(151, 285, 256) == 170,
        exp_at(152, 285, 256) == 73,
        exp_at(153, 285, 256) == 146,
        exp_at(154, 285, 256) == 57,
        exp_at(155, 285, 256) == 114,
        exp_at(156, 285, 256) == 228,
        exp_at(157, 285, 256) == 213,
        exp_at(158, 285, 256) == 183,
        exp_at(159, 285, 256) == 115,
        exp_at(160, 285, 256) == 230,
{
    lemma_gf256_powers_3();
    lemma_gf256_xtime();
    assert(exp_at(129, 285, 256) == xtime(exp_at(128, 285, 256), 285, 256));
    assert(exp_at(130, 285, 256) == xtime(exp_at(129, 285, 256), 285, 256));
    assert(exp_at(131, 285, 256) == xtime(exp_at(130, 285, 256), 285, 256));
    assert(exp_at(132, 285, 256) == xtime(exp_at(131, 285, 256), 285, 256));
    assert(exp_at(133, 285, 256) == xtime(exp_at(132, 285, 256), 285, 256));
    assert(exp_at(134, 285, 256) == xtime(exp_at(133, 285, 256), 285, 256));
    assert(exp_at(135, 285, 256) == xtime(exp_at(134, 285, 256), 285, 256));
    assert(exp_at(136, 285, 256) == xtime(exp_at(135, 285, 256), 285, 256));
    assert(exp_at(137, 285, 256) == xtime(exp_at(136, 285, 256), 285, 256));
    assert(exp_at(138, 285, 256) == xtime(exp_at(137, 285, 256), 285, 256));
    assert(exp_at(139, 285, 256) == xtime(exp_at(138, 285, 256), 285, 256));
    assert(exp_at(140, 285, 256) == xtime(exp_at(139, 285, 256), 285, 256));
    assert(exp_at(141, 285, 256) == xtime(exp_at(140, 285, 256), 285, 256));
    assert(exp_at(142, 285, 256) == xtime(exp_at(141, 285, 256), 285, 256));
    assert(exp_at(143, 285, 256) == xtime(exp_at(142, 285, 256), 285, 256));
    assert(exp_at(144, 285, 256) == xtime(exp_at(143, 285, 256), 285, 256));
    assert(exp_at(145, 285, 256) == xtime(exp_at(144, 285, 256), 285, 256));
    assert(exp_at(146, 285, 256) == xtime(exp_at(145, 285, 256), 285, 256));
    assert(exp_at(147, 285, 256) == xtime(exp_at(146, 285, 256), 285, 256));
    assert(exp_at(148, 285, 256) == xtime(exp_at(147, 285, 256), 285, 256));
    assert(exp_at(149, 285, 256) == xtime(exp_at(148, 285, 256), 285, 256));
    assert(exp_at(150, 285, 256) == xtime(exp_at(149, 285, 256), 285, 256));
    assert(exp_at(151, 285, 256) == xtime(exp_at(150, 285, 256), 285, 256));
    assert(exp_at(152, 285, 256) == xtime(exp_at(151, 285, 256), 285, 256));
    assert(exp_at(153, 285, 256) == xtime(exp_at(152, 285, 256), 285, 256));
    assert(exp_at(154, 285, 256) == xtime(exp_at(153, 285, 256), 285, 256));
    assert(exp_at(155, 285, 256) == xtime(exp_at(154, 285, 256), 285, 256));
    assert(exp_at(156, 285, 256) == xtime(exp_at(155, 285, 256), 285, 256));
    assert(exp_at(157, 285, 256) == xtime(exp_at(156, 285, 256), 285, 256));
    assert(exp_at(158, 285, 256) == xtime(exp_at(157, 285, 256), 285, 256));
    assert(exp_at(159, 285, 256) == xtime(exp_at(158, 285, 256), 285, 256));
    assert(exp_at(160, 285, 256) == xtime(exp_at(159, 285, 256), 285, 256));
}

/// The powers `x^160` to `x^192` modulo 0x11d.
proof fn lemma_gf256_powers_5()
    ensures
        exp_at(160, 285, 256) == 230,
        exp_at(161, 285, 256) == 209,
        exp_at(162, 285, 256) == 191,
        exp_at(163, 285, 256) == 99,
        exp_at(164, 285, 256) == 198,
        exp_at(165, 285, 256) == 145,
        exp_at(166, 285, 256) == 63,
        exp_at(167, 285, 256) == 126,
        exp_at(168, 285, 256) == 252,
        exp_at(169, 285, 256) == 229,
        exp_at(170, 285, 256) == 215,
        exp_at(171, 285, 256) == 179,
        exp_at(172, 285, 256) == 123,
        exp_at(173, 285, 256) == 246,
        exp_at(174, 285, 256) == 241,
        exp_at(175, 285, 256) == 255,
        exp_at(176, 285, 256) == 227,
        exp_at(177, 285, 256) == 219,
        exp_at(178, 285, 256) == 171,
        exp_at(179, 285, 256) == 75,
        exp_at(180, 285, 256) == 150,
        exp_at(181, 285, 256) == 49,
        exp_at(182, 285, 256) == 98,
        exp_at(183, 285, 256) == 196,
        exp_at(184, 285, 256) == 149,
        exp_at(185, 285, 256) == 55,
        exp_at(186, 285, 256) == 110,
        exp_at(187, 285, 256) == 220,
        exp_at(188, 285, 256) == 165,
        exp_at(189, 285, 256) == 87,
        exp_at(190, 285, 256) == 174,
        exp_at(191, 285, 256) == 65,
        exp_at(192, 285, 256) == 130,
{
    lemma_gf256_powers_4();
    lemma_gf256_xtime();
    assert(exp_at(161, 285, 256) == xtime(exp_at(160, 285, 256), 285, 256));
    assert(exp_at(162, 285, 256) == xtime(exp_at(161, 285, 256), 285, 256));
    assert(exp_at(163, 285, 256) == xtime(exp_at(162, 285, 256), 285, 256));
    assert(exp_at(164, 285, 256) == xtime(exp_at(163, 285, 256), 285, 256));
    assert(exp_at(165, 285, 256) == xtime(exp_at(164, 285, 256), 285, 256));
    assert(exp_at(166, 285, 256) == xtime(exp_at(165, 285, 256), 285, 256));
    assert(exp_at(167, 285, 256) == xtime(exp_at(166, 285, 256), 285, 256));
    assert(exp_at(168, 285, 256) == xtime(exp_at(167, 285, 256), 285, 256));
    assert(exp_at(169, 285, 256) == xtime(exp_at(168, 285, 256), 285, 256));
    assert(exp_at(170, 285, 256) == xtime(exp_at(169, 285, 256), 285, 256));
    assert(exp_at(171, 285, 256) == xtime(exp_at(170, 285, 256), 285, 256));
    assert(exp_at(172, 285, 256) == xtime(exp_at(171, 285, 256), 285, 256));
    assert(exp_at(173, 285, 256) == xtime(exp_at(172, 285, 256), 285, 256));
    assert(exp_at(174, 285, 256) == xtime(exp_at(173, 285, 256), 285, 256));
    assert(exp_at(175, 285, 256) == xtime(exp_at(174, 285, 256), 285, 256));
    assert(exp_at(176, 285, 256) == xtime(exp_at(175, 285, 256), 285, 256));
    assert(exp_at(177, 285, 256) == xtime(exp_at(176, 285, 256), 285, 256));
    assert(exp_at(178, 285, 256) == xtime(exp_at(177, 285, 256), 285, 256));
    assert(exp_at(179, 285, 256) == xtime(exp_at(178, 285, 256), 285, 256));
    assert(exp_at(180, 285, 256) == xtime(exp_at(179, 285, 256), 285, 256));
    assert(exp_at(181, 285, 256) == xtime(exp_at(180, 285, 256), 285, 256));
    assert(exp_at(182, 285, 256) == xtime(exp_at(181, 285, 256), 285, 256));
    assert(exp_at(183, 285, 256) == xtime(exp_at(182, 285, 256), 285, 256));
    assert(exp_at(184, 285, 256) == xtime(exp_at(183, 285, 256), 285, 256));
    assert(exp_at(185, 285, 256) == xtime(exp_at(184, 285, 256), 285, 256));
    assert(exp_at(186, 285, 256) == xtime(exp_at(185, 285, 256), 285, 256));
    assert(exp_at(187, 285, 256) == xtime(exp_at(186, 285, 256), 285, 256));
    assert(exp_at(188, 285, 256) == xtime(exp_at(187, 285, 256), 285, 256));
    assert(exp_at(189, 285, 256) == xtime(exp_at(188, 285, 256), 285, 256));
    assert(exp_at(190, 285, 256) == xtime(exp_at(189, 285, 256), 285, 256));
    assert(exp_at(191, 285, 256) == xtime(exp_at(190, 285, 256), 285, 256));
    assert(exp_at(192, 285, 256) == xtime(exp_at(191, 285, 256), 285, 256));
}

/// The powers `x^192` to `x^224` modulo 0x11d.
proof fn lemma_gf256_powers_6()
    ensures
        exp_at(192, 285, 256) == 130,
        exp_at(193, 285, 256) == 25,
        exp_at(194, 285, 256) == 50,
        exp_at(195, 285, 256) == 100,
        exp_at(196, 285, 256) == 200,
        exp_at(197, 285, 256) == 141,
        exp_at(198, 285, 256) == 7,
        exp_at(199, 285, 256) == 14,
        exp_at(200, 285, 256) == 28,
        exp_at(201, 285, 256) == 56,
        exp_at(202, 285, 256) == 112,
        exp_at(203, 285, 256) == 224,
        exp_at(204, 285, 256) == 221,
        exp_at(205, 285, 256) == 167,
        exp_at(206, 285, 256) == 83,
        exp_at(207, 285, 256) == 166,
        exp_at(208, 285, 256) == 81,
        exp_at(209, 285, 256) == 162,
        exp_at(210, 285, 256) == 89,
        exp_at(211, 285, 256) == 178,
        exp_at(212, 285, 256) == 121,
        exp_at(213, 285, 256) == 242,
        exp_at(214, 285, 256) == 249,
        exp_at(215, 285, 256) == 239,
        exp_at(216, 285, 256) == 195,
        exp_at(217, 285, 256) == 155,
        exp_at(218, 285, 256) == 43,
        exp_at(219, 285, 256) == 86,
        exp_at(220, 285, 256) == 172,
        exp_at(221, 285, 256) == 69,
        exp_at(222, 285, 256) == 138,
        exp_at(223, 285, 256) == 9,
        exp_at(224, 285, 256) == 18,
{
    lemma_gf256_powers_5();
    lemma_gf256_xtime();
    assert(exp_at(193, 285, 256) == xtime(exp_at(192, 285, 256), 285, 256));
    assert(exp_at(194, 285, 256) == xtime(exp_at(193, 285, 256), 285, 256));
    assert(exp_at(195, 285, 256) == xtime(exp_at(194, 285, 256), 285, 256));
    assert(exp_at(196, 285, 256) == xtime(exp_at(195, 285, 256), 285, 256));
    assert(exp_at(197, 285, 256) == xtime(exp_at(196, 285, 256), 285, 256));
    assert(exp_at(198, 285, 256) == xtime(exp_at(197, 285, 256), 285, 256));
    assert(exp_at(199, 285, 256) == xtime(exp_at(198, 285, 256), 285, 256));
    assert(exp_at(200, 285, 256) == xtime(exp_at(199, 285, 256), 285, 256));
    assert(exp_at(201, 285, 256) == xtime(exp_at(200, 285, 256), 285, 256));
    assert(exp_at(202, 285, 256) == xtime(exp_at(201, 285, 256), 285, 256));
    assert(exp_at(203, 285, 256) == xtime(exp_at(202, 285, 256), 285, 256));
    assert(exp_at(204, 285, 256) == xtime(exp_at(203, 285, 256), 285, 256));
    assert(exp_at(205, 285, 256) == xtime(exp_at(204, 285, 256), 285, 256));
    assert(exp_at(206, 285, 256) == xtime(exp_at(205, 285, 256), 285, 256));
    assert(exp_at(207, 285, 256) == xtime(exp_at(206, 285, 256), 285, 256));
    assert(exp_at(208, 285, 256) == xtime(exp_at(207, 285, 256), 285, 256));
    assert(exp_at(209, 285, 256) == xtime(exp_at(208, 285, 256), 285, 256));
    assert(exp_at(210, 285, 256) == xtime(exp_at(209, 285, 256), 285, 256));
    assert(exp_at(211, 285, 256) == xtime(exp_at(210, 285, 256), 285, 256));
    assert(exp_at(212, 285, 256) == xtime(exp_at(211, 285, 256), 285, 256));
    assert(exp_at(213, 285, 256) == xtime(exp_at(212, 285, 256), 285, 256));
    assert(exp_at(214, 285, 256) == xtime(exp_at(213, 285, 256), 285, 256));
    assert(exp_at(215, 285, 256) == xtime(exp_at(214, 285, 256), 285, 256));
    assert(exp_at(216, 285, 256) == xtime(exp_at(215, 285, 256), 285, 256));
    assert(exp_at(217, 285, 256) == xtime(exp_at(216, 285, 256), 285, 256));
    assert(exp_at(218, 285, 256) == xtime(exp_at(217, 285, 256), 285, 256));
    assert(exp_at(219, 285, 256) == xtime(exp_at(218, 285, 256), 285, 256));
    assert(exp_at(220, 285, 256) == xtime(exp_at(219, 285, 256), 285, 256));
    assert(exp_at(221, 285, 256) == xtime(exp_at(220, 285, 256), 285, 256));
    assert(exp_at(222, 285, 256) == xtime(exp_at(221, 285, 256), 285, 256));
    assert(exp_at(223, 285, 256) == xtime(exp_at(222, 285, 256), 285, 256));
    assert(exp_at(224, 285, 256) == xtime(exp_at(223, 285, 256), 285, 256));
}

/// The powers `x^224` to `x^255` modulo 0x11d.
proof fn lemma_gf256_powers_7()
    ensures
        exp_at(224, 285, 256) == 18,
        exp_at(225, 285, 256) == 36,
        exp_at(226, 285, 256) == 72,
        exp_at(227, 285, 256) == 144,
        exp_at(228, 285, 256) == 61,
        exp_at(229, 285, 256) == 122,
        exp_at(230, 285, 256) == 244,
        exp_at(231, 285, 256) == 245,
        exp_at(232, 285, 256) == 247,
        exp_at(233, 285, 256) == 243,
        exp_at(234, 285, 256) == 251,
        exp_at(235, 285, 256) == 235,
        exp_at(236, 285, 256) == 203,
        exp_at(237, 285, 256) == 139,
        exp_at(238, 285, 256) == 11,
        exp_at(239, 285, 256) == 22,
        exp_at(240, 285, 256) == 44,
        exp_at(241, 285, 256) == 88,
        exp_at(242, 285, 256) == 176,
        exp_at(243, 285, 256) == 125,
        exp_at(244, 285, 256) == 250,
        exp_at(245, 285, 256) == 233,
        exp_at(246, 285, 256) == 207,
        exp_at(247, 285, 256) == 131,
        exp_at(248, 285, 256) == 27,
        exp_at(249, 285, 256) == 54,
        exp_at(250, 285, 256) == 108,
        exp_at(251, 285, 256) == 216,
        exp_at(252, 285, 256) == 173,
        exp_at(253, 285, 256) == 71,
        exp_at(254, 285, 256) == 142,
        exp_at(255, 285, 256) == 1,
{
    lemma_gf256_powers_6();
    lemma_gf256_xtime();
    assert(exp_at(225, 285, 256) == xtime(exp_at(224, 285, 256), 285, 256));
    assert(exp_at(226, 285, 256) == xtime(exp_at(225, 285, 256), 285, 256));
    assert(exp_at(227, 285, 256) == xtime(exp_at(226, 285, 256), 285, 256));
    assert(exp_at(228, 285, 256) == xtime(exp_at(227, 285, 256), 285, 256));
    assert(exp_at(229, 285, 256) == xtime(exp_at(228, 285, 256), 285, 256));
    assert(exp_at(230, 285, 256) == xtime(exp_at(229, 285, 256), 285, 256));
    assert(exp_at(231, 285, 256) == xtime(exp_at(230, 285, 256), 285, 256));
    assert(exp_at(232, 285, 256) == xtime(exp_at(231, 285, 256), 285, 256));
    assert(exp_at(233, 285, 256) == xtime(exp_at(232, 285, 256), 285, 256));
    assert(exp_at(234, 285, 256) == xtime(exp_at(233, 285, 256), 285, 256));
    assert(exp_at(235, 285, 256) == xtime(exp_at(234, 285, 256), 285, 256));
    assert(exp_at(236, 285, 256) == xtime(exp_at(235, 285, 256), 285, 256));
    assert(exp_at(237, 285, 256) == xtime(exp_at(236, 285, 256), 285, 256));
    assert(exp_at(238, 285, 256) == xtime(exp_at(237, 285, 256), 285, 256));
    assert(exp_at(239, 285, 256) == xtime(exp_at(238, 285, 256), 285, 256));
    assert(exp_at(240, 285, 256) == xtime(exp_at(239, 285, 256), 285, 256));
    assert(exp_at(241, 285, 256) == xtime(exp_at(240, 285, 256), 285, 256));
    assert(exp_at(242, 285, 256) == xtime(exp_at(241, 285, 256), 285, 256));
    assert(exp_at(243, 285, 256) == xtime(exp_at(242, 285, 256), 285, 256));
    assert(exp_at(244, 285, 256) == xtime(exp_at(243, 285, 256), 285, 256));
    assert(exp_at(245, 285, 256) == xtime(exp_at(244, 285, 256), 285, 256));
    assert(exp_at(246, 285, 256) == xtime(exp_at(245, 285, 256), 285, 256));
    assert(exp_at(247, 285, 256) == xtime(exp_at(246, 285, 256), 285, 256));
    assert(exp_at(248, 285, 256) == xtime(exp_at(247, 285, 256), 285, 256));
    assert(exp_at(249, 285, 256) == xtime(exp_at(248, 285, 256), 285, 256));
    assert(exp_at(250, 285, 256) == xtime(exp_at(249, 285, 256), 285, 256));
    assert(exp_at(251, 285, 256) == xtime(exp_at(250, 285, 256), 285, 256));
    assert(exp_at(252, 285, 256) == xtime(exp_at(251, 285, 256), 285, 256));
    assert(exp_at(253, 285, 256) == xtime(exp_at(252, 285, 256), 285, 256));
    assert(exp_at(254, 285, 256) == xtime(exp_at(253, 285, 256), 285, 256));
    assert(exp_at(255, 285, 256) == xtime(exp_at(254, 285, 256), 285, 256));
}

/// The exponent of each nonzero element as a power of `x` modulo 0x11d.
pub open spec fn gf256_log(v: usize) -> nat {
    if v < 128 { if v < 64 { if v < 32 { if v < 16 { if v < 8 { if v < 4 { if v < 2 { if v < 1 { 0 } else { 0 } } else { if v < 3 { 1 } else { 25 } } } else { if v < 6 { if v < 5 { 2 } else { 50 } } else { if v < 7 { 26 } else { 198 } } } } else { if v < 12 { if v < 10 { if v < 9 { 3 } else { 223 } } else { if v < 11 { 51 } else { 238 } } } else { if v < 14 { if v < 13 { 27 } else { 104 } } else { if v < 15 { 199 } else { 75 } } } } } else { if v < 24 { if v < 20 { if v < 18 { if v < 17 { 4 } else { 100 } } else { if v < 19 { 224 } else { 14 } } } else { if v < 22 { if v < 21 { 52 } else { 141 } } else { if v < 23 { 239 } else { 129 } } } } else { if v < 28 { if v < 26 { if v < 25 { 28 } else { 193 } } else { if v < 27 { 105 } else { 248 } } } else { if v < 30 { if v < 29 { 200 } else { 8 } } else { if v < 31 { 76 } else { 113 } } } } } } else { if v < 48 { if v < 40 { if v < 36 { if v < 34 { if v < 33 { 5 } else { 138 } } else { if v < 35 { 101 } else { 47 } } } else { if v < 38 { if v < 37 { 225 } else { 36 } } else { if v < 39 { 15 } else { 33 } } } } else { if v < 44 { if v < 42 { if v < 41 { 53 } else { 147 } } else { if v < 43 { 142 } else { 218 } } } else { if v < 46 { if v < 45 { 240 } else { 18 } } else { if v < 47 { 130 } else { 69 } } } } } else { if v < 56 { if v < 52 { if v < 50 { if v < 49 { 29 } else { 181 } } else { if v < 51 { 194 } else { 125 } } } else { if v < 54 { if v < 53 { 106 } else { 39 } } else { if v < 55 { 249 } else { 185 } } } } else { if v < 60 { if v < 58 { if v < 57 { 201 } else { 154 } } else { if v < 59 { 9 } else { 120 } } } else { if v < 62 { if v < 61 { 77 } else { 228 } } else { if v < 63 { 114 } else { 166 } } } } } } } else { if v < 96 { if v < 80 { if v < 72 { if v < 68 { if v < 66 { if v < 65 { 6 } else { 191 } } else { if v < 67 { 139 } else { 98 } } } else { if v < 70 { if v < 69 { 102 } else { 221 } } else { if v < 71 { 48 } else { 253 } } } } else { if v < 76 { if v < 74 { if v < 73 { 226 } else { 152 } } else { if v < 75 { 37 } else { 179 } } } else { if v < 78 { if v < 77 { 16 } else { 145 } } else { if v < 79 { 34 } else { 136 } } } } } else { if v < 88 { if v < 84 { if v < 82 { if v < 81 { 54 } else { 208 } } else { if v < 83 { 148 } else { 206 } } } else { if v < 86 { if v < 85 { 143 } else { 150 } } else { if v < 87 { 219 } else { 189 } } } } else { if v < 92 { if v < 90 { if v < 89 { 241 } else { 210 } } else { if v < 91 { 19 } else { 92 } } } else { if v < 94 { if v < 93 { 131 } else { 56 } } else { if v < 95 { 70 } else { 64 } } } } } } else { if v < 112 { if v < 104 { if v < 100 { if v < 98 { if v < 97 { 30 } else { 66 } } else { if v < 99 { 182 } else { 163 } } } else { if v < 102 { if v < 101 { 195 } else { 72 } } else { if v < 103 { 126 } else { 110 } } } } else { if v < 108 { if v < 106 { if v < 105 { 107 } else { 58 } } else { if v < 107 { 40 } else { 84 } } } else { if v < 110 { if v < 109 { 250 } else { 133 } } else { if v < 111 { 186 } else { 61 } } } } } else { if v < 120 { if v < 116 { if v < 114 { if v < 113 { 202 } else { 94 } } else { if v < 115 { 155 } else { 159 } } } else { if v < 118 { if v < 117 { 10 } else { 21 } } else { if v < 119 { 121 } else { 43 } } } } else { if v < 124 { if v < 122 { if v < 121 { 78 } else { 212 } } else { if v < 123 { 229 } else { 172 } } } else { if v < 126 { if v < 125 { 115 } else { 243 } } else { if v < 127 { 167 } else { 87 } } } } } } } } else { if v < 192 { if v < 160 { if v < 144 { if v < 136 { if v < 132 { if v < 130 { if v < 129 { 7 } else { 112 } } else { if v < 131 { 192 } else { 247 } } } else { if v < 134 { if v < 133 { 140 } else { 128 } } else { if v < 135 { 99 } else { 13 } } } } else { if v < 140 { if v < 138 { if v < 137 { 103 } else { 74 } } else { if v < 139 { 222 } else { 237 } } } else { if v < 142 { if v < 141 { 49 } else { 197 } } else { if v < 143 { 254 } else { 24 } } } } } else { if v < 152 { if v < 148 { if v < 146 { if v < 145 { 227 } else { 165 } } else { if v < 147 { 153 } else { 119 } } } else { if v < 150 { if v < 149 { 38 } else { 184 } } else { if v < 151 { 180 } else { 124 } } } } else { if v < 156 { if v < 154 { if v < 153 { 17 } else { 68 } } else { if v < 155 { 146 } else { 217 } } } else { if v < 158 { if v < 157 { 35 } else { 32 } } else { if v < 159 { 137 } else { 46 } } } } } } else { if v < 176 { if v < 168 { if v < 164 { if v < 162 { if v < 161 { 55 } else { 63 } } else { if v < 163 { 209 } else { 91 } } } else { if v < 166 { if v < 165 { 149 } else { 188 } } else { if v < 167 { 207 } else { 205 } } } } else { if v < 172 { if v < 170 { if v < 169 { 144 } else { 135 } } else { if v < 171 { 151 } else { 178 } } } else { if v < 174 { if v < 173 { 220 } else { 252 } } else { if v < 175 { 190 } else { 97 } } } } } else { if v < 184 { if v < 180 { if v < 178 { if v < 177 { 242 } else { 86 } } else { if v < 179 { 211 } else { 171 } } } else { if v < 182 { if v < 181 { 20 } else { 42 } } else { if v < 183 { 93 } else { 158 } } } } else { if v < 188 { if v < 186 { if v < 185 { 132 } else { 60 } } else { if v < 187 { 57 } else { 83 } } } else { if v < 190 { if v < 189 { 71 } else { 109 } } else { if v < 191 { 65 } else { 162 } } } } } } } else { if v < 224 { if v < 208 { if v < 200 { if v < 196 { if v < 194 { if v < 193 { 31 } else { 45 } } else { if v < 195 { 67 } else { 216 } } } else { if v < 198 { if v < 197 { 183 } else { 123 } } else { if v < 199 { 164 } else { 118 } } } } else { if v < 204 { if v < 202 { if v < 201 { 196 } else { 23 } } else { if v < 203 { 73 } else { 236 } } } else { if v < 206 { if v < 205 { 127 } else { 12 } } else { if v < 207 { 111 } else { 246 } } } } } else { if v < 216 { if v < 212 { if v < 210 { if v < 209 { 108 } else { 161 } } else { if v < 211 { 59 } else { 82 } } } else { if v < 214 { if v < 213 { 41 } else { 157 } } else { if v < 215 { 85 } else { 170 } } } } else { if v < 220 { if v < 218 { if v < 217 { 251 } else { 96 } } else { if v < 219 { 134 } else { 177 } } } else { if v < 222 { if v < 221 { 187 } else { 204 } } else { if v < 223 { 62 } else { 90 } } } } } } else { if v < 240 { if v < 232 { if v < 228 { if v < 226 { if v < 225 { 203 } else { 89 } } else { if v < 227 { 95 } else { 176 } } } else { if v < 230 { if v < 229 { 156 } else { 169 } } else { if v < 231 { 160 } else { 81 } } } } else { if v < 236 { if v < 234 { if v < 233 { 11 } else { 245 } } else { if v < 235 { 22 } else { 235 } } } else { if v < 238 { if v < 237 { 122 } else { 117 } } else { if v < 239 { 44 } else { 215 } } } } } else { if v < 248 { if v < 244 { if v < 242 { if v < 241 { 79 } else { 174 } } else { if v < 243 { 213 } else { 233 } } } else { if v < 246 { if v < 245 { 230 } else { 231 } } else { if v < 247 { 173 } else { 232 } } } } else { if v < 252 { if v < 250 { if v < 249 { 116 } else { 214 } } else { if v < 251 { 244 } else { 234 } } } else { if v < 254 { if v < 253 { 168 } else { 80 } } else { if v < 255 { 88 } else { 175 } } } } } } } }
}

/// The logarithms of the powers `x^0` to `x^31`.
proof fn lemma_gf256_logs_0()
    ensures
        forall|k: nat| 0 <= k < 32 ==> #[trigger] gf256_log(exp_at(k, 285, 256)) == k,
{
    lemma_gf256_powers_0();
    assert forall|k: nat| 0 <= k < 32 implies #[trigger] gf256_log(exp_at(k, 285, 256)) == k by {
        if k == 0 { assert(gf256_log(1) == 0); } else if k == 1 { assert(gf256_log(2) == 1); } else if k == 2 { assert(gf256_log(4) == 2); } else if k == 3 { assert(gf256_log(8) == 3); } else if k == 4 { assert(gf256_log(16) == 4); } else if k == 5 { assert(gf256_log(32) == 5); } else if k == 6 { assert(gf256_log(64) == 6); } else if k == 7 { assert(gf256_log(128) == 7); } else if k == 8 { assert(gf256_log(29) == 8); } else if k == 9 { assert(gf256_log(58) == 9); } else if k == 10 { assert(gf256_log(116) == 10); } else if k == 11 { assert(gf256_log(232) == 11); } else if k == 12 { assert(gf256_log(205) == 12); } else if k == 13 { assert(gf256_log(135) == 13); } else if k == 14 { assert(gf256_log(19) == 14); } else if k == 15 { assert(gf256_log(38) == 15); } else if k == 16 { assert(gf256_log(76) == 16); } else if k == 17 { assert(gf256_log(152) == 17); } else if k == 18 { assert(gf256_log(45) == 18); } else if k == 19 { assert(gf256_log(90) == 19); } else if k == 20 { assert(gf256_log(180) == 20); } else if k == 21 { assert(gf256_log(117) == 21); } else if k == 22 { assert(gf256_log(234) == 22); } else if k == 23 { assert(gf256_log(201) == 23); } else if k == 24 { assert(gf256_log(143) == 24); } else if k == 25 { assert(gf256_log(3) == 25); } else if k == 26 { assert(gf256_log(6) == 26); } else if k == 27 { assert(gf256_log(12) == 27); } else if k == 28 { assert(gf256_log(24) == 28); } else if k == 29 { assert(gf256_log(48) == 29); } else if k == 30 { assert(gf256_log(96) == 30); } else if k == 31 { assert(gf256_log(192) == 31); }
    }
}

/// The logarithms of the powers `x^32` to `x^63`.
proof fn lemma_gf256_logs_1()
    ensures
        forall|k: nat| 32 <= k < 64 ==> #[trigger] gf256_log(exp_at(k, 285, 256)) == k,
{
    lemma_gf256_powers_1();
    assert forall|k: nat| 32 <= k < 64 implies #[trigger] gf256_log(exp_at(k, 285, 256)) == k by {
        if k == 32 { assert(gf256_log(157) == 32); } else if k == 33 { assert(gf256_log(39) == 33); } else if k == 34 { assert(gf256_log(78) == 34); } else if k == 35 { assert(gf256_log(156) == 35); } else if k == 36 { assert(gf256_log(37) == 36); } else if k == 37 { assert(gf256_log(74) == 37); } else if k == 38 { assert(gf256_log(148) == 38); } else if k == 39 { assert(gf256_log(53) == 39); } else if k == 40 { assert(gf256_log(106) == 40); } else if k == 41 { assert(gf256_log(212) == 41); } else if k == 42 { assert(gf256_log(181) == 42); } else if k == 43 { assert(gf256_log(119) == 43); } else if k == 44 { assert(gf256_log(238) == 44); } else if k == 45 { assert(gf256_log(193) == 45); } else if k == 46 { assert(gf256_log(159) == 46); } else if k == 47 { assert(gf256_log(35) == 47); } else if k == 48 { assert(gf256_log(70) == 48); } else if k == 49 { assert(gf256_log(140) == 49); } else if k == 50 { assert(gf256_log(5) == 50); } else if k == 51 { assert(gf256_log(10) == 51); } else if k == 52 { assert(gf256_log(20) == 52); } else if k == 53 { assert(gf256_log(40) == 53); } else if k == 54 { assert(gf256_log(80) == 54); } else if k == 55 { assert(gf256_log(160) == 55); } else if k == 56 { assert(gf256_log(93) == 56); } else if k == 57 { assert(gf256_log(186) == 57); } else if k == 58 { assert(gf256_log(105) == 58); } else if k == 59 { assert(gf256_log(210) == 59); } else if k == 60 { assert(gf256_log(185) == 60); } else if k == 61 { assert(gf256_log(111) == 61); } else if k == 62 { assert(gf256_log(222) == 62); } else if k == 63 { assert(gf256_log(161) == 63); }
    }
}

/// The logarithms of the powers `x^64` to `x^95`.
proof fn lemma_gf256_logs_2()
    ensures
        forall|k: nat| 64 <= k < 96 ==> #[trigger] gf256_log(exp_at(k, 285, 256)) == k,
{
    lemma_gf256_powers_2();
    assert forall|k: nat| 64 <= k < 96 implies #[trigger] gf256_log(exp_at(k, 285, 256)) == k by {
        if k == 64 { assert(gf256_log(95) == 64); } else if k == 65 { assert(gf256_log(190) == 65); } else if k == 66 { assert(gf256_log(97) == 66); } else if k == 67 { assert(gf256_log(194) == 67); } else if k == 68 { assert(gf256_log(153) == 68); } else if k == 69 { assert(gf256_log(47) == 69); } else if k == 70 { assert(gf256_log(94) == 70); } else if k == 71 { assert(gf256_log(188) == 71); } else if k == 72 { assert(gf256_log(101) == 72); } else if k == 73 { assert(gf256_log(202) == 73); } else if k == 74 { assert(gf256_log(137) == 74); } else if k == 75 { assert(gf256_log(15) == 75); } else if k == 76 { assert(gf256_log(30) == 76); } else if k == 77 { assert(gf256_log(60) == 77); } else if k == 78 { assert(gf256_log(120) == 78); } else if k == 79 { assert(gf256_log(240) == 79); } else if k == 80 { assert(gf256_log(253) == 80); } else if k == 81 { assert(gf256_log(231) == 81); } else if k == 82 { assert(gf256_log(211) == 82); } else if k == 83 { assert(gf256_log(187) == 83); } else if k == 84 { assert(gf256_log(107) == 84); } else if k == 85 { assert(gf256_log(214) == 85); } else if k == 86 { assert(gf256_log(177) == 86); } else if k == 87 { assert(gf256_log(127) == 87); } else if k == 88 { assert(gf256_log(254) == 88); } else if k == 89 { assert(gf256_log(225) == 89); } else if k == 90 { assert(gf256_log(223) == 90); } else if k == 91 { assert(gf256_log(163) == 91); } else if k == 92 { assert(gf256_log(91) == 92); } else if k == 93 { assert(gf256_log(182) == 93); } else if k == 94 { assert(gf256_log(113) == 94); } else if k == 95 { assert(gf256_log(226) == 95); }
    }
}

/// The logarithms of the powers `x^96` to `x^127`.
proof fn lemma_gf256_logs_3()
    ensures
        forall|k: nat| 96 <= k < 128 ==> #[trigger] gf256_log(exp_at(k, 285, 256)) == k,
{
    lemma_gf256_powers_3();
    assert forall|k: nat| 96 <= k < 128 implies #[trigger] gf256_log(exp_at(k, 285, 256)) == k by {
        if k == 96 { assert(gf256_log(217) == 96); } else if k == 97 { assert(gf256_log(175) == 97); } else if k == 98 { assert(gf256_log(67) == 98); } else if k == 99 { assert(gf256_log(134) == 99); } else if k == 100 { assert(gf256_log(17) == 100); } else if k == 101 { assert(gf256_log(34) == 101); } else if k == 102 { assert(gf256_log(68) == 102); } else if k == 103 { assert(gf256_log(136) == 103); } else if k == 104 { assert(gf256_log(13) == 104); } else if k == 105 { assert(gf256_log(26) == 105); } else if k == 106 { assert(gf256_log(52) == 106); } else if k == 107 { assert(gf256_log(104) == 107); } else if k == 108 { assert(gf256_log(208) == 108); } else if k == 109 { assert(gf256_log(189) == 109); } else if k == 110 { assert(gf256_log(103) == 110); } else if k == 111 { assert(gf256_log(206) == 111); } else if k == 112 { assert(gf256_log(129) == 112); } else if k == 113 { assert(gf256_log(31) == 113); } else if k == 114 { assert(gf256_log(62) == 114); } else if k == 115 { assert(gf256_log(124) == 115); } else if k == 116 { assert(gf256_log(248) == 116); } else if k == 117 { assert(gf256_log(237) == 117); } else if k == 118 { assert(gf256_log(199) == 118); } else if k == 119 { assert(gf256_log(147) == 119); } else if k == 120 { assert(gf256_log(59) == 120); } else if k == 121 { assert(gf256_log(118) == 121); } else if k == 122 { assert(gf256_log(236) == 122); } else if k == 123 { assert(gf256_log(197) == 123); } else if k == 124 { assert(gf256_log(151) == 124); } else if k == 125 { assert(gf256_log(51) == 125); } else if k == 126 { assert(gf256_log(102) == 126); } else if k == 127 { assert(gf256_log(204) == 127); }
    }
}

/// The logarithms of the powers `x^128` to `x^159`.
proof fn lemma_gf256_logs_4()
    ensures
        forall|k: nat| 128 <= k < 160 ==> #[trigger] gf256_log(exp_at(k, 285, 256)) == k,
{
    lemma_gf256_powers_4();
    assert forall|k: nat| 128 <= k < 160 implies #[trigger] gf256_log(exp_at(k, 285, 256)) == k by {
        if k == 128 { assert(gf256_log(133) == 128); } else if k == 129 { assert(gf256_log(23) == 129); } else if k == 130 { assert(gf256_log(46) == 130); } else if k == 131 { assert(gf256_log(92) == 131); } else if k == 132 { assert(gf256_log(184) == 132); } else if k == 133 { assert(gf256_log(109) == 133); } else if k == 134 { assert(gf256_log(218) == 134); } else if k == 135 { assert(gf256_log(169) == 135); } else if k == 136 { assert(gf256_log(79) == 136); } else if k == 137 { assert(gf256_log(158) == 137); } else if k == 138 { assert(gf256_log(33) == 138); } else if k == 139 { assert(gf256_log(66) == 139); } else if k == 140 { assert(gf256_log(132) == 140); } else if k == 141 { assert(gf256_log(21) == 141); } else if k == 142 { assert(gf256_log(42) == 142); } else if k == 143 { assert(gf256_log(84) == 143); } else if k == 144 { assert(gf256_log(168) == 144); } else if k == 145 { assert(gf256_log(77) == 145); } else if k == 146 { assert(gf256_log(154) == 146); } else if k == 147 { assert(gf256_log(41) == 147); } else if k == 148 { assert(gf256_log(82) == 148); } else if k == 149 { assert(gf256_log(164) == 149); } else if k == 150 { assert(gf256_log(85) == 150); } else if k == 151 { assert(gf256_log(170) == 151); } else if k == 152 { assert(gf256_log(73) == 152); } else if k == 153 { assert(gf256_log(146) == 153); } else if k == 154 { assert(gf256_log(57) == 154); } else if k == 155 { assert(gf256_log(114) == 155); } else if k == 156 { assert(gf256_log(228) == 156); } else if k == 157 { assert(gf256_log(213) == 157); } else if k == 158 { assert(gf256_log(183) == 158); } else if k == 159 { assert(gf256_log(115) == 159); }
    }
}

/// The logarithms of the powers `x^160` to `x^191`.
proof fn lemma_gf256_logs_5()
    ensures
        forall|k: nat| 160 <= k < 192 ==> #[trigger] gf256_log(exp_at(k, 285, 256)) == k,
{
    lemma_gf256_powers_5();
    assert forall|k: nat| 160 <= k < 192 implies #[trigger] gf256_log(exp_at(k, 285, 256)) == k by {
        if k == 160 { assert(gf256_log(230) == 160); } else if k == 161 { assert(gf256_log(209) == 161); } else if k == 162 { assert(gf256_log(191) == 162); } else if k == 163 { assert(gf256_log(99) == 163); } else if k == 164 { assert(gf256_log(198) == 164); } else if k == 165 { assert(gf256_log(145) == 165); } else if k == 166 { assert(gf256_log(63) == 166); } else if k == 167 { assert(gf256_log(126) == 167); } else if k == 168 { assert(gf256_log(252) == 168); } else if k == 169 { assert(gf256_log(229) == 169); } else if k == 170 { assert(gf256_log(215) == 170); } else if k == 171 { assert(gf256_log(179) == 171); } else if k == 172 { assert(gf256_log(123) == 172); } else if k == 173 { assert(gf256_log(246) == 173); } else if k == 174 { assert(gf256_log(241) == 174); } else if k == 175 { assert(gf256_log(255) == 175); } else if k == 176 { assert(gf256_log(227) == 176); } else if k == 177 { assert(gf256_log(219) == 177); } else if k == 178 { assert(gf256_log(171) == 178); } else if k == 179 { assert(gf256_log(75) == 179); } else if k == 180 { assert(gf256_log(150) == 180); } else if k == 181 { assert(gf256_log(49) == 181); } else if k == 182 { assert(gf256_log(98) == 182); } else if k == 183 { assert(gf256_log(196) == 183); } else if k == 184 { assert(gf256_log(149) == 184); } else if k == 185 { assert(gf256_log(55) == 185); } else if k == 186 { assert(gf256_log(110) == 186); } else if k == 187 { assert(gf256_log(220) == 187); } else if k == 188 { assert(gf256_log(165) == 188); } else if k == 189 { assert(gf256_log(87) == 189); } else if k == 190 { assert(gf256_log(174) == 190); } else if k == 191 { assert(gf256_log(65) == 191); }
    }
}

/// The logarithms of the powers `x^192` to `x^223`.
proof fn lemma_gf256_logs_6()
    ensures
        forall|k: nat| 192 <= k < 224 ==> #[trigger] gf256_log(exp_at(k, 285, 256)) == k,
{
    lemma_gf256_powers_6();
    assert forall|k: nat| 192 <= k < 224 implies #[trigger] gf256_log(exp_at(k, 285, 256)) == k by {
        if k == 192 { assert(gf256_log(130) == 192); } else if k == 193 { assert(gf256_log(25) == 193); } else if k == 194 { assert(gf256_log(50) == 194); } else if k == 195 { assert(gf256_log(100) == 195); } else if k == 196 { assert(gf256_log(200) == 196); } else if k == 197 { assert(gf256_log(141) == 197); } else if k == 198 { assert(gf256_log(7) == 198); } else if k == 199 { assert(gf256_log(14) == 199); } else if k == 200 { assert(gf256_log(28) == 200); } else if k == 201 { assert(gf256_log(56) == 201); } else if k == 202 { assert(gf256_log(112) == 202); } else if k == 203 { assert(gf256_log(224) == 203); } else if k == 204 { assert(gf256_log(221) == 204); } else if k == 205 { assert(gf256_log(167) == 205); } else if k == 206 { assert(gf256_log(83) == 206); } else if k == 207 { assert(gf256_log(166) == 207); } else if k == 208 { assert(gf256_log(81) == 208); } else if k == 209 { assert(gf256_log(162) == 209); } else if k == 210 { assert(gf256_log(89) == 210); } else if k == 211 { assert(gf256_log(178) == 211); } else if k == 212 { assert(gf256_log(121) == 212); } else if k == 213 { assert(gf256_log(242) == 213); } else if k == 214 { assert(gf256_log(249) == 214); } else if k == 215 { assert(gf256_log(239) == 215); } else if k == 216 { assert(gf256_log(195) == 216); } else if k == 217 { assert(gf256_log(155) == 217); } else if k == 218 { assert(gf256_log(43) == 218); } else if k == 219 { assert(gf256_log(86) == 219); } else if k == 220 { assert(gf256_log(172) == 220); } else if k == 221 { assert(gf256_log(69) == 221); } else if k == 222 { assert(gf256_log(138) == 222); } else if k == 223 { assert(gf256_log(9) == 223); }
    }
}

/// The logarithms of the powers `x^224` to `x^254`.
proof fn lemma_gf256_logs_7()
    ensures
        forall|k: nat| 224 <= k < 255 ==> #[trigger] gf256_log(exp_at(k, 285, 256)) == k,
{
    lemma_gf256_powers_7();
    assert forall|k: nat| 224 <= k < 255 implies #[trigger] gf256_log(exp_at(k, 285, 256)) == k by {
        if k == 224 { assert(gf256_log(18) == 224); } else if k == 225 { assert(gf256_log(36) == 225); } else if k == 226 { assert(gf256_log(72) == 226); } else if k == 227 { assert(gf256_log(144) == 227); } else if k == 228 { assert(gf256_log(61) == 228); } else if k == 229 { assert(gf256_log(122) == 229); } else if k == 230 { assert(gf256_log(244) == 230); } else if k == 231 { assert(gf256_log(245) == 231); } else if k == 232 { assert(gf256_log(247) == 232); } else if k == 233 { assert(gf256_log(243) == 233); } else if k == 234 { assert(gf256_log(251) == 234); } else if k == 235 { assert(gf256_log(235) == 235); } else if k == 236 { assert(gf256_log(203) == 236); } else if k == 237 { assert(gf256_log(139) == 237); } else if k == 238 { assert(gf256_log(11) == 238); } else if k == 239 { assert(gf256_log(22) == 239); } else if k == 240 { assert(gf256_log(44) == 240); } else if k == 241 { assert(gf256_log(88) == 241); } else if k == 242 { assert(gf256_log(176) == 242); } else if k == 243 { assert(gf256_log(125) == 243); } else if k == 244 { assert(gf256_log(250) == 244); } else if k == 245 { assert(gf256_log(233) == 245); } else if k == 246 { assert(gf256_log(207) == 246); } else if k == 247 { assert(gf256_log(131) == 247); } else if k == 248 { assert(gf256_log(27) == 248); } else if k == 249 { assert(gf256_log(54) == 249); } else if k == 250 { assert(gf256_log(108) == 250); } else if k == 251 { assert(gf256_log(216) == 251); } else if k == 252 { assert(gf256_log(173) == 252); } else if k == 253 { assert(gf256_log(71) == 253); } else if k == 254 { assert(gf256_log(142) == 254); }
    }
}

/// The elements 1 to 32 are powers of `x`.
proof fn lemma_gf256_exps_0()
    ensures
        forall|v: usize| 1 <= v <= 32 ==> gf256_log(v) < 255 && #[trigger] exp_at(gf256_log(v), 285, 256) == v,
{
    lemma_gf256_powers_0();
    lemma_gf256_powers_1();
    lemma_gf256_powers_2();
    lemma_gf256_powers_3();
    lemma_gf256_powers_4();
    lemma_gf256_powers_6();
    lemma_gf256_powers_7();
    assert forall|v: usize| 1 <= v <= 32 implies gf256_log(v) < 255 && #[trigger] exp_at(gf256_log(v), 285, 256) == v by {
        if v == 1 { assert(gf256_log(1) == 0); } else if v == 2 { assert(gf256_log(2) == 1); } else if v == 3 { assert(gf256_log(3) == 25); } else if v == 4 { assert(gf256_log(4) == 2); } else if v == 5 { assert(gf256_log(5) == 50); } else if v == 6 { assert(gf256_log(6) == 26); } else if v == 7 { assert(gf256_log(7) == 198); } else if v == 8 { assert(gf256_log(8) == 3); } else if v == 9 { assert(gf256_log(9) == 223); } else if v == 10 { assert(gf256_log(10) == 51); } else if v == 11 { assert(gf256_log(11) == 238); } else if v == 12 { assert(gf256_log(12) == 27); } else if v == 13 { assert(gf256_log(13) == 104); } else if v == 14 { assert(gf256_log(14) == 199); } else if v == 15 { assert(gf256_log(15) == 75); } else if v == 16 { assert(gf256_log(16) == 4); } else if v == 17 { assert(gf256_log(17) == 100); } else if v == 18 { assert(gf256_log(18) == 224); } else if v == 19 { assert(gf256_log(19) == 14); } else if v == 20 { assert(gf256_log(20) == 52); } else if v == 21 { assert(gf256_log(21) == 141); } else if v == 22 { assert(gf256_log(22) == 239); } else if v == 23 { assert(gf256_log(23) == 129); } else if v == 24 { assert(gf256_log(24) == 28); } else if v == 25 { assert(gf256_log(25) == 193); } else if v == 26 { assert(gf256_log(26) == 105); } else if v == 27 { assert(gf256_log(27) == 248); } else if v == 28 { assert(gf256_log(28) == 200); } else if v == 29 { assert(gf256_log(29) == 8); } else if v == 30 { assert(gf256_log(30) == 76); } else if v == 31 { assert(gf256_log(31) == 113); } else if v == 32 { assert(gf256_log(32) == 5); }
    }
}

/// The elements 33 to 64 are powers of `x`.
proof fn lemma_gf256_exps_1()
    ensures
        forall|v: usize| 33 <= v <= 64 ==> gf256_log(v) < 255 && #[trigger] exp_at(gf256_log(v), 285, 256) == v,
{
    lemma_gf256_powers_0();
    lemma_gf256_powers_1();
    lemma_gf256_powers_2();
    lemma_gf256_powers_3();
    lemma_gf256_powers_4();
    lemma_gf256_powers_5();
    lemma_gf256_powers_6();
    lemma_gf256_powers_7();
    assert forall|v: usize| 33 <= v <= 64 implies gf256_log(v) < 255 && #[trigger] exp_at(gf256_log(v), 285, 256) == v by {
        if v == 33 { assert(gf256_log(33) == 138); } else if v == 34 { assert(gf256_log(34) == 101); } else if v == 35 { assert(gf256_log(35) == 47); } else if v == 36 { assert(gf256_log(36) == 225); } else if v == 37 { assert(gf256_log(37) == 36); } else if v == 38 { assert(gf256_log(38) == 15); } else if v == 39 { assert(gf256_log(39) == 33); } else if v == 40 { assert(gf256_log(40) == 53); } else if v == 41 { assert(gf256_log(41) == 147); } else if v == 42 { assert(gf256_log(42) == 142); } else if v == 43 { assert(gf256_log(43) == 218); } else if v == 44 { assert(gf256_log(44) == 240); } else if v == 45 { assert(gf256_log(45) == 18); } else if v == 46 { assert(gf256_log(46) == 130); } else if v == 47 { assert(gf256_log(47) == 69); } else if v == 48 { assert(gf256_log(48) == 29); } else if v == 49 { assert(gf256_log(49) == 181); } else if v == 50 { assert(gf256_log(50) == 194); } else if v == 51 { assert(gf256_log(51) == 125); } else if v == 52 { assert(gf256_log(52) == 106); } else if v == 53 { assert(gf256_log(53) == 39); } else if v == 54 { assert(gf256_log(54) == 249); } else if v == 55 { assert(gf256_log(55) == 185); } else if v == 56 { assert(gf256_log(56) == 201); } else if v == 57 { assert(gf256_log(57) == 154); } else if v == 58 { assert(gf256_log(58) == 9); } else if v == 59 { assert(gf256_log(59) == 120); } else if v == 60 { assert(gf256_log(60) == 77); } else if v == 61 { assert(gf256_log(61) == 228); } else if v == 62 { assert(gf256_log(62) == 114); } else if v == 63 { assert(gf256_log(63) == 166); } else if v == 64 { assert(gf256_log(64) == 6); }
    }
}

/// The elements 65 to 96 are powers of `x`.
proof fn lemma_gf256_exps_2()
    ensures
        forall|v: usize| 65 <= v <= 96 ==> gf256_log(v) < 255 && #[trigger] exp_at(gf256_log(v), 285, 256) == v,
{
    lemma_gf256_powers_0();
    lemma_gf256_powers_1();
    lemma_gf256_powers_2();
    lemma_gf256_powers_3();
    lemma_gf256_powers_4();
    lemma_gf256_powers_5();
    lemma_gf256_powers_6();
    lemma_gf256_powers_7();
    assert forall|v: usize| 65 <= v <= 96 implies gf256_log(v) < 255 && #[trigger] exp_at(gf256_log(v), 285, 256) == v by {
        if v == 65 { assert(gf256_log(65) == 191); } else if v == 66 { assert(gf256_log(66) == 139); } else if v == 67 { assert(gf256_log(67) == 98); } else if v == 68 { assert(gf256_log(68) == 102); } else if v == 69 { assert(gf256_log(69) == 221); } else if v == 70 { assert(gf256_log(70) == 48); } else if v == 71 { assert(gf256_log(71) == 253); } else if v == 72 { assert(gf256_log(72) == 226); } else if v == 73 { assert(gf256_log(73) == 152); } else if v == 74 { assert(gf256_log(74) == 37); } else if v == 75 { assert(gf256_log(75) == 179); } else if v == 76 { assert(gf256_log(76) == 16); } else if v == 77 { assert(gf256_log(77) == 145); } else if v == 78 { assert(gf256_log(78) == 34); } else if v == 79 { assert(gf256_log(79) == 136); } else if v == 80 { assert(gf256_log(80) == 54); } else if v == 81 { assert(gf256_log(81) == 208); } else if v == 82 { assert(gf256_log(82) == 148); } else if v == 83 { assert(gf256_log(83) == 206); } else if v == 84 { assert(gf256_log(84) == 143); } else if v == 85 { assert(gf256_log(85) == 150); } else if v == 86 { assert(gf256_log(86) == 219); } else if v == 87 { assert(gf256_log(87) == 189); } else if v == 88 { assert(gf256_log(88) == 241); } else if v == 89 { assert(gf256_log(89) == 210); } else if v == 90 { assert(gf256_log(90) == 19); } else if v == 91 { assert(gf256_log(91) == 92); } else if v == 92 { assert(gf256_log(92) == 131); } else if v == 93 { assert(gf256_log(93) == 56); } else if v == 94 { assert(gf256_log(94) == 70); } else if v == 95 { assert(gf256_log(95) == 64); } else if v == 96 { assert(gf256_log(96) == 30); }
    }
}

/// The elements 97 to 128 are powers of `x`.
proof fn lemma_gf256_exps_3()
    ensures
        forall|v: usize| 97 <= v <= 128 ==> gf256_log(v) < 255 && #[trigger] exp_at(gf256_log(v), 285, 256) == v,
{
    lemma_gf256_powers_0();
    lemma_gf256_powers_1();
    lemma_gf256_powers_2();
    lemma_gf256_powers_3();
    lemma_gf256_powers_4();
    lemma_gf256_powers_5();
    lemma_gf256_powers_6();
    lemma_gf256_powers_7();
    assert forall|v: usize| 97 <= v <= 128 implies gf256_log(v) < 255 && #[trigger] exp_at(gf256_log(v), 285, 256) == v by {
        if v == 97 { assert(gf256_log(97) == 66); } else if v == 98 { assert(gf256_log(98) == 182); } else if v == 99 { assert(gf256_log(99) == 163); } else if v == 100 { assert(gf256_log(100) == 195); } else if v == 101 { assert(gf256_log(101) == 72); } else if v == 102 { assert(gf256_log(102) == 126); } else if v == 103 { assert(gf256_log(103) == 110); } else if v == 104 { assert(gf256_log(104) == 107); } else if v == 105 { assert(gf256_log(105) == 58); } else if v == 106 { assert(gf256_log(106) == 40); } else if v == 107 { assert(gf256_log(107) == 84); } else if v == 108 { assert(gf256_log(108) == 250); } else if v == 109 { assert(gf256_log(109) == 133); } else if v == 110 { assert(gf256_log(110) == 186); } else if v == 111 { assert(gf256_log(111) == 61); } else if v == 112 { assert(gf256_log(112) == 202); } else if v == 113 { assert(gf256_log(113) == 94); } else if v == 114 { assert(gf256_log(114) == 155); } else if v == 115 { assert(gf256_log(115) == 159); } else if v == 116 { assert(gf256_log(116) == 10); } else if v == 117 { assert(gf256_log(117) == 21); } else if v == 118 { assert(gf256_log(118) == 121); } else if v == 119 { assert(gf256_log(119) == 43); } else if v == 120 { assert(gf256_log(120) == 78); } else if v == 121 { assert(gf256_log(121) == 212); } else if v == 122 { assert(gf256_log(122) == 229); } else if v == 123 { assert(gf256_log(123) == 172); } else if v == 124 { assert(gf256_log(124) == 115); } else if v == 125 { assert(gf256_log(125) == 243); } else if v == 126 { assert(gf256_log(126) == 167); } else if v == 127 { assert(gf256_log(127) == 87); } else if v == 128 { assert(gf256_log(128) == 7); }
    }
}

/// The elements 129 to 160 are powers of `x`.
proof fn lemma_gf256_exps_4()
    ensures
        forall|v: usize| 129 <= v <= 160 ==> gf256_log(v) < 255 && #[trigger] exp_at(gf256_log(v), 285, 256) == v,
{
    lemma_gf256_powers_0();
    lemma_gf256_powers_1();
    lemma_gf256_powers_2();
    lemma_gf256_powers_3();
    lemma_gf256_powers_4();
    lemma_gf256_powers_5();
    lemma_gf256_powers_6();
    lemma_gf256_powers_7();
    assert forall|v: usize| 129 <= v <= 160 implies gf256_log(v) < 255 && #[trigger] exp_at(gf256_log(v), 285, 256) == v by {
        if v == 129 { assert(gf256_log(129) == 112); } else if v == 130 { assert(gf256_log(130) == 192); } else if v == 131 { assert(gf256_log(131) == 247); } else if v == 132 { assert(gf256_log(132) == 140); } else if v == 133 { assert(gf256_log(133) == 128); } else if v == 134 { assert(gf256_log(134) == 99); } else if v == 135 { assert(gf256_log(135) == 13); } else if v == 136 { assert(gf256_log(136) == 103); } else if v == 137 { assert(gf256_log(137) == 74); } else if v == 138 { assert(gf256_log(138) == 222); } else if v == 139 { assert(gf256_log(139) == 237); } else if v == 140 { assert(gf256_log(140) == 49); } else if v == 141 { assert(gf256_log(141) == 197); } else if v == 142 { assert(gf256_log(142) == 254); } else if v == 143 { assert(gf256_log(143) == 24); } else if v == 144 { assert(gf256_log(144) == 227); } else if v == 145 { assert(gf256_log(145) == 165); } else if v == 146 { assert(gf256_log(146) == 153); } else if v == 147 { assert(gf256_log(147) == 119); } else if v == 148 { assert(gf256_log(148) == 38); } else if v == 149 { assert(gf256_log(149) == 184); } else if v == 150 { assert(gf256_log(150) == 180); } else if v == 151 { assert(gf256_log(151) == 124); } else if v == 152 { assert(gf256_log(152) == 17); } else if v == 153 { assert(gf256_log(153) == 68); } else if v == 154 { assert(gf256_log(154) == 146); } else if v == 155 { assert(gf256_log(155) == 217); } else if v == 156 { assert(gf256_log(156) == 35); } else if v == 157 { assert(gf256_log(157) == 32); } else if v == 158 { assert(gf256_log(158) == 137); } else if v == 159 { assert(gf256_log(159) == 46); } else if v == 160 { assert(gf256_log(160) == 55); }
    }
}

/// The elements 161 to 192 are powers of `x`.
proof fn lemma_gf256_exps_5()
    ensures
        forall|v: usize| 161 <= v <= 192 ==> gf256_log(v) < 255 && #[trigger] exp_at(gf256_log(v), 285, 256) == v,
{
    lemma_gf256_powers_0();
    lemma_gf256_powers_1();
    lemma_gf256_powers_2();
    lemma_gf256_powers_3();
    lemma_gf256_powers_4();
    lemma_gf256_powers_5();
    lemma_gf256_powers_6();
    lemma_gf256_powers_7();
    assert forall|v: usize| 161 <= v <= 192 implies gf256_log(v) < 255 && #[trigger] exp_at(gf256_log(v), 285, 256) == v by {
        if v == 161 { assert(gf256_log(161) == 63); } else if v == 162 { assert(gf256_log(162) == 209); } else if v == 163 { assert(gf256_log(163) == 91); } else if v == 164 { assert(gf256_log(164) == 149); } else if v == 165 { assert(gf256_log(165) == 188); } else if v == 166 { assert(gf256_log(166) == 207); } else if v == 167 { assert(gf256_log(167) == 205); } else if v == 168 { assert(gf256_log(168) == 144); } else if v == 169 { assert(gf256_log(169) == 135); } else if v == 170 { assert(gf256_log(170) == 151); } else if v == 171 { assert(gf256_log(171) == 178); } else if v == 172 { assert(gf256_log(172) == 220); } else if v == 173 { assert(gf256_log(173) == 252); } else if v == 174 { assert(gf256_log(174) == 190); } else if v == 175 { assert(gf256_log(175) == 97); } else if v == 176 { assert(gf256_log(176) == 242); } else if v == 177 { assert(gf256_log(177) == 86); } else if v == 178 { assert(gf256_log(178) == 211); } else if v == 179 { assert(gf256_log(179) == 171); } else if v == 180 { assert(gf256_log(180) == 20); } else if v == 181 { assert(gf256_log(181) == 42); } else if v == 182 { assert(gf256_log(182) == 93); } else if v == 183 { assert(gf256_log(183) == 158); } else if v == 184 { assert(gf256_log(184) == 132); } else if v == 185 { assert(gf256_log(185) == 60); } else if v == 186 { assert(gf256_log(186) == 57); } else if v == 187 { assert(gf256_log(187) == 83); } else if v == 188 { assert(gf256_log(188) == 71); } else if v == 189 { assert(gf256_log(189) == 109); } else if v == 190 { assert(gf256_log(190) == 65); } else if v == 191 { assert(gf256_log(191) == 162); } else if v == 192 { assert(gf256_log(192) == 31); }
    }
}

/// The elements 193 to 224 are powers of `x`.
proof fn lemma_gf256_exps_6()
    ensures
        forall|v: usize| 193 <= v <= 224 ==> gf256_log(v) < 255 && #[trigger] exp_at(gf256_log(v), 285, 256) == v,
{
    lemma_gf256_powers_0();
    lemma_gf256_powers_1();
    lemma_gf256_powers_2();
    lemma_gf256_powers_3();
    lemma_gf256_powers_4();
    lemma_gf256_powers_5();
    lemma_gf256_powers_6();
    lemma_gf256_powers_7();
    assert forall|v: usize| 193 <= v <= 224 implies gf256_log(v) < 255 && #[trigger] exp_at(gf256_log(v), 285, 256) == v by {
        if v == 193 { assert(gf256_log(193) == 45); } else if v == 194 { assert(gf256_log(194) == 67); } else if v == 195 { assert(gf256_log(195) == 216); } else if v == 196 { assert(gf256_log(196) == 183); } else if v == 197 { assert(gf256_log(197) == 123); } else if v == 198 { assert(gf256_log(198) == 164); } else if v == 199 { assert(gf256_log(199) == 118); } else if v == 200 { assert(gf256_log(200) == 196); } else if v == 201 { assert(gf256_log(201) == 23); } else if v == 202 { assert(gf256_log(202) == 73); } else if v == 203 { assert(gf256_log(203) == 236); } else if v == 204 { assert(gf256_log(204) == 127); } else if v == 205 { assert(gf256_log(205) == 12); } else if v == 206 { assert(gf256_log(206) == 111); } else if v == 207 { assert(gf256_log(207) == 246); } else if v == 208 { assert(gf256_log(208) == 108); } else if v == 209 { assert(gf256_log(209) == 161); } else if v == 210 { assert(gf256_log(210) == 59); } else if v == 211 { assert(gf256_log(211) == 82); } else if v == 212 { assert(gf256_log(212) == 41); } else if v == 213 { assert(gf256_log(213) == 157); } else if v == 214 { assert(gf256_log(214) == 85); } else if v == 215 { assert(gf256_log(215) == 170); } else if v == 216 { assert(gf256_log(216) == 251); } else if v == 217 { assert(gf256_log(217) == 96); } else if v == 218 { assert(gf256_log(218) == 134); } else if v == 219 { assert(gf256_log(219) == 177); } else if v == 220 { assert(gf256_log(220) == 187); } else if v == 221 { assert(gf256_log(221) == 204); } else if v == 222 { assert(gf256_log(222) == 62); } else if v == 223 { assert(gf256_log(223) == 90); } else if v == 224 { assert(gf256_log(224) == 203); }
    }
}

/// The elements 225 to 255 are powers of `x`.
proof fn lemma_gf256_exps_7()
    ensures
        forall|v: usize| 225 <= v <= 255 ==> gf256_log(v) < 255 && #[trigger] exp_at(gf256_log(v), 285, 256) == v,
{
    lemma_gf256_powers_0();
    lemma_gf256_powers_1();
    lemma_gf256_powers_2();
    lemma_gf256_powers_3();
    lemma_gf256_powers_4();
    lemma_gf256_powers_5();
    lemma_gf256_powers_6();
    lemma_gf256_powers_7();
    assert forall|v: usize| 225 <= v <= 255 implies gf256_log(v) < 255 && #[trigger] exp_at(gf256_log(v), 285, 256) == v by {
        if v == 225 { assert(gf256_log(225) == 89); } else if v == 226 { assert(gf256_log(226) == 95); } else if v == 227 { assert(gf256_log(227) == 176); } else if v == 228 { assert(gf256_log(228) == 156); } else if v == 229 { assert(gf256_log(229) == 169); } else if v == 230 { assert(gf256_log(230) == 160); } else if v == 231 { assert(gf256_log(231) == 81); } else if v == 232 { assert(gf256_log(232) == 11); } else if v == 233 { assert(gf256_log(233) == 245); } else if v == 234 { assert(gf256_log(234) == 22); } else if v == 235 { assert(gf256_log(235) == 235); } else if v == 236 { assert(gf256_log(236) == 122); } else if v == 237 { assert(gf256_log(237) == 117); } else if v == 238 { assert(gf256_log(238) == 44); } else if v == 239 { assert(gf256_log(239) == 215); } else if v == 240 { assert(gf256_log(240) == 79); } else if v == 241 { assert(gf256_log(241) == 174); } else if v == 242 { assert(gf256_log(242) == 213); } else if v == 243 { assert(gf256_log(243) == 233); } else if v == 244 { assert(gf256_log(244) == 230); } else if v == 245 { assert(gf256_log(245) == 231); } else if v == 246 { assert(gf256_log(246) == 173); } else if v == 247 { assert(gf256_log(247) == 232); } else if v == 248 { assert(gf256_log(248) == 116); } else if v == 249 { assert(gf256_log(249) == 214); } else if v == 250 { assert(gf256_log(250) == 244); } else if v == 251 { assert(gf256_log(251) == 234); } else if v == 252 { assert(gf256_log(252) == 168); } else if v == 253 { assert(gf256_log(253) == 80); } else if v == 254 { assert(gf256_log(254) == 88); } else if v == 255 { assert(gf256_log(255) == 175); }
    }
}

/// The powers of `x` modulo 0x11d, and the logarithms that invert them.
proof fn lemma_gf256_powers()
    ensures
        exp_at(255, 285, 256) == 1,
        forall|k: nat| k < 255 ==> #[trigger] gf256_log(exp_at(k, 285, 256)) == k,
        forall|v: usize| 1 <= v < 256 ==> gf256_log(v) < 255 && #[trigger] exp_at(gf256_log(v), 285, 256) == v,
{
    lemma_gf256_powers_7();
    lemma_gf256_logs_0();
    lemma_gf256_logs_1();
    lemma_gf256_logs_2();
    lemma_gf256_logs_3();
    lemma_gf256_logs_4();
    lemma_gf256_logs_5();
    lemma_gf256_logs_6();
    lemma_gf256_logs_7();
    lemma_gf256_exps_0();
    lemma_gf256_exps_1();
    lemma_gf256_exps_2();
    lemma_gf256_exps_3();
    lemma_gf256_exps_4();
    lemma_gf256_exps_5();
    lemma_gf256_exps_6();
    lemma_gf256_exps_7();
}

/// `X^8 + X^4 + X^3 + X^2 + 1` is primitive.
pub proof fn lemma_gf256_primitive()
    ensures
        primitive(8, 285),
{
    assert((1usize << 8usize) == 256usize) by (bit_vector);
    assert(valid_params(8, 285));
    lemma_gf256_powers();
    assert forall|i: nat, j: nat| i < j < 255 implies #[trigger] exp_at(i, 285, 256) != #[trigger] exp_at(j, 285, 256) by {
        assert(gf256_log(exp_at(i, 285, 256)) == i);
        assert(gf256_log(exp_at(j, 285, 256)) == j);
    }
    assert forall|v: usize| 1 <= v < 256 implies #[trigger] is_power(v, 285, 256) by {
        assert(exp_at(gf256_log(v), 285, 256) == v);
    }
}

/// The field that `GaloisField::new(8, 0x11d, _)` builds satisfies the
/// assumptions of the field and polynomial laws.
pub proof fn lemma_gf256_is_field(f: &GaloisField)
    requires
        f.built_from(8, 285),
    ensures
        is_field(f, 8, 285),
{
    lemma_gf256_primitive();
}

/// Law: in GF(256) modulo 0x11d, 1 and 0 act as they should under `mult`,
/// `mult` commutes, stays in the field, distributes over `sum` and
/// associates, `sum` is its own inverse with identity 0, and `div` undoes
/// `mult` and fails only on division by zero.
pub proof fn law_gf256_arith(f: &GaloisField, i: usize, j: usize, k: usize)
    requires
        f.built_from(8, 285),
        i < 256,
        j < 256,
        k < 256,
    ensures
        f.mult_out(i, 1) == Outcome::Val(i),
        f.mult_out(i, 0) == Outcome::Val(0usize),
        f.mult_out(i, j) == f.mult_out(j, i),
        f.mult_out(i, j) == Outcome::Val(f.table_mult(i, j)) && f.table_mult(i, j) < 256,
        f.sum_out(j, k) == Outcome::Val(j ^ k),
        f.mult_out(i, j ^ k) == Outcome::Val(f.table_mult(i, j) ^ f.table_mult(i, k)),
        f.table_mult(f.table_mult(i, j), k) == f.table_mult(i, f.table_mult(j, k)),
        f.sum_out(i ^ j, j) == Outcome::Val(i) && f.sum_out(i, 0) == Outcome::Val(i),
        j != 0 ==> f.div_out(f.table_mult(i, j), j) == Outcome::Val(i),
        j == 0 ==> f.div_out(f.table_mult(i, j), j) == Outcome::<usize>::Rejected("Division by zero"),
{
    lemma_gf256_is_field(f);
    lemma_tables(f, 8, 285);
    assert((1usize << 8usize) == 256usize) by (bit_vector);
    law_mult_one(f, 8, 285, i);
    law_mult_zero(f, i);
    law_mult_commutes(f, i, j);
    law_mult_closed(f, i, j);
    law_mult_distributes(f, 8, 285, i, j, k);
    law_mult_assoc(f, 8, 285, i, j, k);
    law_sum_inverse(f, i, j);
    if j != 0 {
        law_div_mult(f, 8, 285, i, j);
    }
}

/// Law: in GF(256) modulo 0x11d, evaluation turns products and sums of
/// polynomials into products and sums of values, and polynomial
/// multiplication distributes over polynomial addition.
pub proof fn law_gf256_poly_eval(f: &GaloisField, a: Seq<usize>, b: Seq<usize>, c: Seq<usize>, x: usize)
    requires
        f.built_from(8, 285),
        elements(a, f.size()),
        elements(b, f.size()),
        elements(c, f.size()),
        a.len() > 0,
        b.len() > 0,
        c.len() > 0,
        x < f.size(),
    ensures
        f.mult_poly_out(a, b) matches Outcome::Val(r)
            && f.eval_out(r, x) == Outcome::Val(f.table_mult(f.peval(a, x, a.len()), f.peval(b, x, b.len()))),
        f.sum_poly_out(a, b) matches Outcome::Val(r)
            && f.eval_out(r, x) == Outcome::Val(f.peval(a, x, a.len()) ^ f.peval(b, x, b.len())),
        f.sum_poly_out(b, c) matches Outcome::Val(s) && f.mult_poly_out(a, s) matches Outcome::Val(l)
            && f.mult_poly_out(a, b) matches Outcome::Val(u) && f.mult_poly_out(a, c) matches Outcome::Val(v)
            && f.sum_poly_out(u, v) matches Outcome::Val(r)
            && f.eval_out(l, x) == f.eval_out(r, x),
{
    lemma_gf256_is_field(f);
    law_mult_poly_eval(f, 8, 285, a, b, x);
    law_sum_poly_eval(f, 8, 285, a, b, x);
    law_mult_poly_distributes(f, 8, 285, a, b, c, x);
}

} // verus!
