//! The tables that number the placements of the leading pieces: they fold the
//! symmetries of the board into dense indices, and every table file is laid
//! out by them.
use vstd::prelude::*;

verus! {

/// The largest number of men, the two kings included, of a table that can be loaded.
pub const MAX_PIECES: usize = 8;

/// For each square, on which side of the long diagonal a1-h8 it lies:
/// 0 on it, -1 where the file is the greater, 1 where the rank is.
pub const OFF_DIAGONAL: [i8; 64] = [
    0, -1, -1, -1, -1, -1, -1, -1,
    1, 0, -1, -1, -1, -1, -1, -1,
    1, 1, 0, -1, -1, -1, -1, -1,
    1, 1, 1, 0, -1, -1, -1, -1,
    1, 1, 1, 1, 0, -1, -1, -1,
    1, 1, 1, 1, 1, 0, -1, -1,
    1, 1, 1, 1, 1, 1, 0, -1,
    1, 1, 1, 1, 1, 1, 1, 0,
];

/// For each square, the number of the square of the triangle a1-d1-d4 onto
/// which the symmetries of the board take it.
pub const TRIANGLE: [u8; 64] = [
    6, 0, 1, 2, 2, 1, 0, 6,
    0, 7, 3, 4, 4, 3, 7, 0,
    1, 3, 8, 5, 5, 8, 3, 1,
    2, 4, 5, 9, 9, 5, 4, 2,
    2, 4, 5, 9, 9, 5, 4, 2,
    1, 3, 8, 5, 5, 8, 3, 1,
    0, 7, 3, 4, 4, 3, 7, 0,
    6, 0, 1, 2, 2, 1, 0, 6,
];

/// For each square, its mirror image in the long diagonal a1-h8.
pub const FLIP_DIAGONAL: [u8; 64] = [
    0, 8, 16, 24, 32, 40, 48, 56,
    1, 9, 17, 25, 33, 41, 49, 57,
    2, 10, 18, 26, 34, 42, 50, 58,
    3, 11, 19, 27, 35, 43, 51, 59,
    4, 12, 20, 28, 36, 44, 52, 60,
    5, 13, 21, 29, 37, 45, 53, 61,
    6, 14, 22, 30, 38, 46, 54, 62,
    7, 15, 23, 31, 39, 47, 55, 63,
];

/// For each square, the number of the pair that it forms with its mirror
/// image in the long diagonal; the squares on the diagonal come last.
pub const LOWER: [u8; 64] = [
    28, 0, 1, 2, 3, 4, 5, 6,
    0, 29, 7, 8, 9, 10, 11, 12,
    1, 7, 30, 13, 14, 15, 16, 17,
    2, 8, 13, 31, 18, 19, 20, 21,
    3, 9, 14, 18, 32, 22, 23, 24,
    4, 10, 15, 19, 22, 33, 25, 26,
    5, 11, 16, 20, 23, 25, 34, 27,
    6, 12, 17, 21, 24, 26, 27, 35,
];

/// For each square of the two long diagonals, its number on them; 0 elsewhere.
pub const DIAGONAL: [u8; 64] = [
    0, 0, 0, 0, 0, 0, 0, 8,
    0, 1, 0, 0, 0, 0, 9, 0,
    0, 0, 2, 0, 0, 10, 0, 0,
    0, 0, 0, 3, 11, 0, 0, 0,
    0, 0, 0, 12, 4, 0, 0, 0,
    0, 0, 13, 0, 0, 5, 0, 0,
    0, 14, 0, 0, 0, 0, 6, 0,
    15, 0, 0, 0, 0, 0, 0, 7,
];

/// For each square that a pawn can stand on, the number of its place on the
/// files a to d, onto which the files e to h are folded.
pub const FLAP: [u8; 64] = [
    0, 0, 0, 0, 0, 0, 0, 0,
    0, 6, 12, 18, 18, 12, 6, 0,
    1, 7, 13, 19, 19, 13, 7, 1,
    2, 8, 14, 20, 20, 14, 8, 2,
    3, 9, 15, 21, 21, 15, 9, 3,
    4, 10, 16, 22, 22, 16, 10, 4,
    5, 11, 17, 23, 23, 17, 11, 5,
    0, 0, 0, 0, 0, 0, 0, 0,
];

/// For each square that a pawn can stand on, its rank in the order in which
/// the pawns after the leading one are counted.
pub const PAWN_TWIST: [u8; 64] = [
    0, 0, 0, 0, 0, 0, 0, 0,
    47, 35, 23, 11, 10, 22, 34, 46,
    45, 33, 21, 9, 8, 20, 32, 44,
    43, 31, 19, 7, 6, 18, 30, 42,
    41, 29, 17, 5, 4, 16, 28, 40,
    39, 27, 15, 3, 2, 14, 26, 38,
    37, 25, 13, 1, 0, 12, 24, 36,
    0, 0, 0, 0, 0, 0, 0, 0,
];

/// For each file, the file from a to d onto which it is folded.
pub const FILE_TO_FILE: [u8; 8] = [
    0, 1, 2, 3, 3, 2, 1, 0,
];

/// For the first king on the square of the triangle with the given number
/// and the second king on the given square, the number of the placement, or -1
/// where the kings would touch or the placement is the mirror image of another.
pub const KK_INDEX: [[i16; 64]; 10] = [
    [
        -1, -1, -1, 0, 1, 2, 3, 4,
        -1, -1, -1, 5, 6, 7, 8, 9,
        10, 11, 12, 13, 14, 15, 16, 17,
        18, 19, 20, 21, 22, 23, 24, 25,
        26, 27, 28, 29, 30, 31, 32, 33,
        34, 35, 36, 37, 38, 39, 40, 41,
        42, 43, 44, 45, 46, 47, 48, 49,
        50, 51, 52, 53, 54, 55, 56, 57,
    ],
    [
        58, -1, -1, -1, 59, 60, 61, 62,
        63, -1, -1, -1, 64, 65, 66, 67,
        68, 69, 70, 71, 72, 73, 74, 75,
        76, 77, 78, 79, 80, 81, 82, 83,
        84, 85, 86, 87, 88, 89, 90, 91,
        92, 93, 94, 95, 96, 97, 98, 99,
        100, 101, 102, 103, 104, 105, 106, 107,
        108, 109, 110, 111, 112, 113, 114, 115,
    ],
    [
        116, 117, -1, -1, -1, 118, 119, 120,
        121, 122, -1, -1, -1, 123, 124, 125,
        126, 127, 128, 129, 130, 131, 132, 133,
        134, 135, 136, 137, 138, 139, 140, 141,
        142, 143, 144, 145, 146, 147, 148, 149,
        150, 151, 152, 153, 154, 155, 156, 157,
        158, 159, 160, 161, 162, 163, 164, 165,
        166, 167, 168, 169, 170, 171, 172, 173,
    ],
    [
        174, -1, -1, -1, 175, 176, 177, 178,
        179, -1, -1, -1, 180, 181, 182, 183,
        184, -1, -1, -1, 185, 186, 187, 188,
        189, 190, 191, 192, 193, 194, 195, 196,
        197, 198, 199, 200, 201, 202, 203, 204,
        205, 206, 207, 208, 209, 210, 211, 212,
        213, 214, 215, 216, 217, 218, 219, 220,
        221, 222, 223, 224, 225, 226, 227, 228,
    ],
    [
        229, 230, -1, -1, -1, 231, 232, 233,
        234, 235, -1, -1, -1, 236, 237, 238,
        239, 240, -1, -1, -1, 241, 242, 243,
        244, 245, 246, 247, 248, 249, 250, 251,
        252, 253, 254, 255, 256, 257, 258, 259,
        260, 261, 262, 263, 264, 265, 266, 267,
        268, 269, 270, 271, 272, 273, 274, 275,
        276, 277, 278, 279, 280, 281, 282, 283,
    ],
    [
        284, 285, 286, 287, 288, 289, 290, 291,
        292, 293, -1, -1, -1, 294, 295, 296,
        297, 298, -1, -1, -1, 299, 300, 301,
        302, 303, -1, -1, -1, 304, 305, 306,
        307, 308, 309, 310, 311, 312, 313, 314,
        315, 316, 317, 318, 319, 320, 321, 322,
        323, 324, 325, 326, 327, 328, 329, 330,
        331, 332, 333, 334, 335, 336, 337, 338,
    ],
    [
        -1, -1, 339, 340, 341, 342, 343, 344,
        -1, -1, 345, 346, 347, 348, 349, 350,
        -1, -1, 441, 351, 352, 353, 354, 355,
        -1, -1, -1, 442, 356, 357, 358, 359,
        -1, -1, -1, -1, 443, 360, 361, 362,
        -1, -1, -1, -1, -1, 444, 363, 364,
        -1, -1, -1, -1, -1, -1, 445, 365,
        -1, -1, -1, -1, -1, -1, -1, 446,
    ],
    [
        -1, -1, -1, 366, 367, 368, 369, 370,
        -1, -1, -1, 371, 372, 373, 374, 375,
        -1, -1, -1, 376, 377, 378, 379, 380,
        -1, -1, -1, 447, 381, 382, 383, 384,
        -1, -1, -1, -1, 448, 385, 386, 387,
        -1, -1, -1, -1, -1, 449, 388, 389,
        -1, -1, -1, -1, -1, -1, 450, 390,
        -1, -1, -1, -1, -1, -1, -1, 451,
    ],
    [
        452, 391, 392, 393, 394, 395, 396, 397,
        -1, -1, -1, -1, 398, 399, 400, 401,
        -1, -1, -1, -1, 402, 403, 404, 405,
        -1, -1, -1, -1, 406, 407, 408, 409,
        -1, -1, -1, -1, 453, 410, 411, 412,
        -1, -1, -1, -1, -1, 454, 413, 414,
        -1, -1, -1, -1, -1, -1, 455, 415,
        -1, -1, -1, -1, -1, -1, -1, 456,
    ],
    [
        457, 416, 417, 418, 419, 420, 421, 422,
        -1, 458, 423, 424, 425, 426, 427, 428,
        -1, -1, -1, -1, -1, 429, 430, 431,
        -1, -1, -1, -1, -1, 432, 433, 434,
        -1, -1, -1, -1, -1, 435, 436, 437,
        -1, -1, -1, -1, -1, 459, 438, 439,
        -1, -1, -1, -1, -1, -1, 460, 440,
        -1, -1, -1, -1, -1, -1, -1, 461,
    ],
];

/// `BINOMIAL[k][n]` is the number of ways to choose `k + 1` of `n` things.
pub const BINOMIAL: [[u64; 64]; 6] = [
    [
        0, 1, 2, 3,
        4, 5, 6, 7,
        8, 9, 10, 11,
        12, 13, 14, 15,
        16, 17, 18, 19,
        20, 21, 22, 23,
        24, 25, 26, 27,
        28, 29, 30, 31,
        32, 33, 34, 35,
        36, 37, 38, 39,
        40, 41, 42, 43,
        44, 45, 46, 47,
        48, 49, 50, 51,
        52, 53, 54, 55,
        56, 57, 58, 59,
        60, 61, 62, 63,
    ],
    [
        0, 0, 1, 3,
        6, 10, 15, 21,
        28, 36, 45, 55,
        66, 78, 91, 105,
        120, 136, 153, 171,
        190, 210, 231, 253,
        276, 300, 325, 351,
        378, 406, 435, 465,
        496, 528, 561, 595,
        630, 666, 703, 741,
        780, 820, 861, 903,
        946, 990, 1035, 1081,
        1128, 1176, 1225, 1275,
        1326, 1378, 1431, 1485,
        1540, 1596, 1653, 1711,
        1770, 1830, 1891, 1953,
    ],
    [
        0, 0, 0, 1,
        4, 10, 20, 35,
        56, 84, 120, 165,
        220, 286, 364, 455,
        560, 680, 816, 969,
        1140, 1330, 1540, 1771,
        2024, 2300, 2600, 2925,
        3276, 3654, 4060, 4495,
        4960, 5456, 5984, 6545,
        7140, 7770, 8436, 9139,
        9880, 10660, 11480, 12341,
        13244, 14190, 15180, 16215,
        17296, 18424, 19600, 20825,
        22100, 23426, 24804, 26235,
        27720, 29260, 30856, 32509,
        34220, 35990, 37820, 39711,
    ],
    [
        0, 0, 0, 0,
        1, 5, 15, 35,
        70, 126, 210, 330,
        495, 715, 1001, 1365,
        1820, 2380, 3060, 3876,
        4845, 5985, 7315, 8855,
        10626, 12650, 14950, 17550,
        20475, 23751, 27405, 31465,
        35960, 40920, 46376, 52360,
        58905, 66045, 73815, 82251,
        91390, 101270, 111930, 123410,
        135751, 148995, 163185, 178365,
        194580, 211876, 230300, 249900,
        270725, 292825, 316251, 341055,
        367290, 395010, 424270, 455126,
        487635, 521855, 557845, 595665,
    ],
    [
        0, 0, 0, 0,
        0, 1, 6, 21,
        56, 126, 252, 462,
        792, 1287, 2002, 3003,
        4368, 6188, 8568, 11628,
        15504, 20349, 26334, 33649,
        42504, 53130, 65780, 80730,
        98280, 118755, 142506, 169911,
        201376, 237336, 278256, 324632,
        376992, 435897, 501942, 575757,
        658008, 749398, 850668, 962598,
        1086008, 1221759, 1370754, 1533939,
        1712304, 1906884, 2118760, 2349060,
        2598960, 2869685, 3162510, 3478761,
        3819816, 4187106, 4582116, 5006386,
        5461512, 5949147, 6471002, 7028847,
    ],
    [
        0, 0, 0, 0,
        0, 0, 1, 7,
        28, 84, 210, 462,
        924, 1716, 3003, 5005,
        8008, 12376, 18564, 27132,
        38760, 54264, 74613, 100947,
        134596, 177100, 230230, 296010,
        376740, 475020, 593775, 736281,
        906192, 1107568, 1344904, 1623160,
        1947792, 2324784, 2760681, 3262623,
        3838380, 4496388, 5245786, 6096454,
        7059052, 8145060, 9366819, 10737573,
        12271512, 13983816, 15890700, 18009460,
        20358520, 22957480, 25827165, 28989675,
        32468436, 36288252, 40475358, 45057474,
        50063860, 55525372, 61474519, 67945521,
    ],
];

/// `PAWN_INDEX[t][f]` is the number of placements of `t + 1` pawns of one
/// side that come before those whose leading pawn has the place `f`, on the
/// same file.
pub const PAWN_INDEX: [[u64; 24]; 6] = [
    [
        0, 1, 2, 3,
        4, 5, 0, 1,
        2, 3, 4, 5,
        0, 1, 2, 3,
        4, 5, 0, 1,
        2, 3, 4, 5,
    ],
    [
        0, 47, 92, 135,
        176, 215, 0, 35,
        68, 99, 128, 155,
        0, 23, 44, 63,
        80, 95, 0, 11,
        20, 27, 32, 35,
    ],
    [
        0, 1081, 2071, 2974,
        3794, 4535, 0, 595,
        1123, 1588, 1994, 2345,
        0, 253, 463, 634,
        770, 875, 0, 55,
        91, 112, 122, 125,
    ],
    [
        0, 16215, 30405, 42746,
        53406, 62545, 0, 6545,
        12001, 16496, 20150, 23075,
        0, 1771, 3101, 4070,
        4750, 5205, 0, 165,
        249, 284, 294, 295,
    ],
    [
        0, 178365, 327360, 450770,
        552040, 634291, 0, 52360,
        93280, 124745, 148496, 166046,
        0, 8855, 14840, 18716,
        21096, 22461, 0, 330,
        456, 491, 496, 496,
    ],
    [
        0, 1533939, 2755698, 3718296,
        4467694, 5043451, 0, 324632,
        561968, 731879, 850634, 931364,
        0, 33649, 53998, 65626,
        71814, 74817, 0, 462,
        588, 609, 610, 610,
    ],
];

/// `PAWN_FACTOR[t][f]` is the number of placements of `t + 1` pawns of one
/// side whose leading pawn stands on the file `f`.
pub const PAWN_FACTOR: [[u64; 4]; 6] = [
    [
        6, 6, 6, 6,
    ],
    [
        252, 180, 108, 36,
    ],
    [
        5201, 2645, 953, 125,
    ],
    [
        70315, 25375, 5491, 295,
    ],
    [
        700336, 178696, 23176, 496,
    ],
    [
        5479348, 984494, 76104, 610,
    ],
];

/// The table of binomials obeys the rule of Pascal's triangle: there is one
/// way to choose nothing, `n` ways to choose one of `n`, none to choose from
/// nothing, and to choose `k + 1` of `n` is to leave the last out or to
/// take it and choose `k` of the rest.
pub proof fn lemma_binomial_rule(k: int, n: int)
    requires
        0 <= k < 6,
        0 <= n < 64,
    ensures
        k == 0 ==> BINOMIAL[k][n] == n,
        n == 0 ==> BINOMIAL[k][n] == 0,
        k > 0 && n > 0 ==> BINOMIAL[k][n] == BINOMIAL[k][n - 1] + BINOMIAL[k - 1][n - 1],
{
    if k == 0 {
        assert(BINOMIAL[0][n] == n);
    } else if k == 1 {
        assert(n > 0 ==> BINOMIAL[1][n] == BINOMIAL[1][n - 1] + BINOMIAL[0][n - 1]);
        assert(BINOMIAL[1][0] == 0);
    } else if k == 2 {
        assert(n > 0 ==> BINOMIAL[2][n] == BINOMIAL[2][n - 1] + BINOMIAL[1][n - 1]);
        assert(BINOMIAL[2][0] == 0);
    } else if k == 3 {
        assert(n > 0 ==> BINOMIAL[3][n] == BINOMIAL[3][n - 1] + BINOMIAL[2][n - 1]);
        assert(BINOMIAL[3][0] == 0);
    } else if k == 4 {
        assert(n > 0 ==> BINOMIAL[4][n] == BINOMIAL[4][n - 1] + BINOMIAL[3][n - 1]);
        assert(BINOMIAL[4][0] == 0);
    } else {
        assert(n > 0 ==> BINOMIAL[5][n] == BINOMIAL[5][n - 1] + BINOMIAL[4][n - 1]);
        assert(BINOMIAL[5][0] == 0);
    }
}

/// The tables of squares fold the board: the long diagonal is where file
/// and rank are the same, mirroring in it exchanges them, and the mirror
/// images of a square in the middle lines and in the diagonal have its number
/// in the triangle.
pub proof fn lemma_square_symmetry(sq: int)
    requires
        0 <= sq < 64,
    ensures
        OFF_DIAGONAL[sq] == 0 <==> sq % 8 == sq / 8,
        OFF_DIAGONAL[sq] > 0 <==> sq / 8 > sq % 8,
        OFF_DIAGONAL[sq] < 0 <==> sq / 8 < sq % 8,
        FLIP_DIAGONAL[sq] == 8 * (sq % 8) + sq / 8,
        TRIANGLE[sq] == TRIANGLE[sq + 7 - 2 * (sq % 8)],
        TRIANGLE[sq] == TRIANGLE[sq % 8 + 56 - 8 * (sq / 8)],
        TRIANGLE[sq] == TRIANGLE[8 * (sq % 8) + sq / 8],
        LOWER[sq] == LOWER[8 * (sq % 8) + sq / 8],
        sq % 8 == sq / 8 ==> DIAGONAL[sq] == sq % 8 && LOWER[sq] == 28 + sq % 8,
        sq % 8 != sq / 8 ==> LOWER[sq] < 28,
{
}

/// The tables of pawn squares: a pawn's place on the files a to d counts
/// the files from the edge and then the ranks from the second, the order of
/// the pawns runs from the seventh rank of the d- and e-file outwards and
/// down, and the files e to h are folded onto d to a.
pub proof fn lemma_pawn_squares(sq: int)
    requires
        8 <= sq < 56,
    ensures
        sq % 8 < 4 ==> FLAP[sq] == 6 * (sq % 8) + sq / 8 - 1,
        sq % 8 >= 4 ==> FLAP[sq] == 6 * (7 - sq % 8) + sq / 8 - 1,
        sq % 8 < 4 ==> PAWN_TWIST[sq] == 47 - 2 * (sq / 8 - 1) - 12 * (sq % 8),
        sq % 8 >= 4 ==> PAWN_TWIST[sq] == 46 - 2 * (sq / 8 - 1) - 12 * (7 - sq % 8),
        sq % 8 < 4 ==> FILE_TO_FILE[sq % 8] == sq % 8,
        sq % 8 >= 4 ==> FILE_TO_FILE[sq % 8] == 7 - sq % 8,
{
}

/// Every placement of two kings has a number below 462, or none.
pub proof fn lemma_kk_index_range(t: int, sq: int)
    requires
        0 <= t < 10,
        0 <= sq < 64,
    ensures
        -1 <= KK_INDEX[t][sq] < 462,
{
    if t == 0 {
        assert(-1 <= KK_INDEX[0][sq] < 462);
    } else if t == 1 {
        assert(-1 <= KK_INDEX[1][sq] < 462);
    } else if t == 2 {
        assert(-1 <= KK_INDEX[2][sq] < 462);
    } else if t == 3 {
        assert(-1 <= KK_INDEX[3][sq] < 462);
    } else if t == 4 {
        assert(-1 <= KK_INDEX[4][sq] < 462);
    } else if t == 5 {
        assert(-1 <= KK_INDEX[5][sq] < 462);
    } else if t == 6 {
        assert(-1 <= KK_INDEX[6][sq] < 462);
    } else if t == 7 {
        assert(-1 <= KK_INDEX[7][sq] < 462);
    } else if t == 8 {
        assert(-1 <= KK_INDEX[8][sq] < 462);
    } else {
        assert(-1 <= KK_INDEX[9][sq] < 462);
    }
}

} // verus!
