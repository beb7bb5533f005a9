//! The fixed tile tables of the game's graphics: which 8-pixel tiles a
//! 16-pixel tile is assembled from, and the flip flags of each assembly.

use vstd::prelude::*;

verus! {

pub const SPRITE_TILE_BIT_TABLE: [u8; 114] = [0, 1, 2, 2, 2, 2, 2, 3, 2, 2, 44, 4, 5, 6, 7, 8, 9, 10, 10, 10, 10, 10, 10, 11, 11, 12, 13, 14, 15, 16, 17, 18, 11, 11, 19, 20, 21, 22, 23, 24, 24, 25, 19, 11, 10, 10, 16, 43, 11, 24, 26, 27, 28, 29, 29, 29, 29, 30, 31, 32, 33, 30, 31, 32, 33, 34, 35, 36, 37, 37, 38, 39, 40, 41, 30, 31, 32, 33, 42, 37, 37, 38, 39, 9, 45, 46, 47, 48, 30, 31, 32, 33, 44, 49, 50, 44, 37, 37, 38, 39, 51, 52, 53, 54, 55, 0, 1, 56, 11, 24, 33, 32, 31, 30];

pub const SPRITE_TILE_BITS: [u16; 228] = [614, 615, 616, 617, 618, 618, 620, 621, 0, 1, 16, 17, 219, 220, 221, 222, 622, 623, 624, 625, 534, 535, 538, 539, 536, 537, 538, 539, 540, 541, 544, 545, 542, 543, 544, 545, 654, 654, 655, 656, 126, 127, 128, 129, 130, 131, 132, 133, 207, 208, 209, 210, 211, 212, 213, 214, 203, 204, 205, 206, 215, 216, 217, 218, 223, 79, 225, 226, 227, 228, 229, 230, 240, 258, 260, 266, 612, 612, 613, 613, 626, 627, 628, 629, 610, 611, 611, 610, 606, 607, 608, 609, 598, 599, 600, 601, 602, 603, 604, 605, 640, 641, 642, 643, 631, 632, 632, 633, 634, 634, 635, 635, 636, 637, 638, 639, 241, 242, 243, 244, 526, 526, 526, 526, 527, 527, 527, 527, 528, 528, 528, 528, 529, 529, 529, 529, 224, 224, 224, 224, 652, 653, 653, 652, 653, 652, 652, 653, 657, 657, 657, 657, 658, 658, 658, 658, 659, 659, 659, 659, 630, 630, 630, 630, 546, 547, 548, 549, 688, 689, 690, 691, 741, 742, 743, 744, 747, 747, 748, 748, 745, 745, 746, 746, 758, 759, 774, 775, 756, 757, 772, 773, 760, 761, 776, 777, 192, 193, 193, 192, 193, 192, 192, 193, 762, 763, 778, 779, 792, 793, 808, 809, 784, 785, 800, 801, 790, 791, 806, 807, 752, 753, 768, 769, 788, 789, 804, 805];

pub const SPRITE_TILE_FLIP_TABLE: [u8; 114] = [0, 1, 0, 0, 0, 0, 0, 0, 0, 0, 2, 0, 0, 0, 0, 0, 1, 0, 0, 0, 0, 0, 0, 0, 0, 0, 0, 0, 0, 0, 0, 0, 0, 0, 2, 0, 3, 0, 0, 0, 0, 0, 2, 0, 0, 0, 0, 0, 0, 0, 4, 2, 0, 0, 0, 0, 0, 5, 5, 5, 5, 5, 5, 5, 5, 5, 0, 0, 5, 5, 5, 5, 5, 0, 5, 5, 5, 5, 0, 5, 5, 5, 5, 1, 2, 0, 0, 0, 5, 5, 5, 5, 2, 0, 0, 2, 5, 5, 5, 5, 0, 0, 0, 0, 0, 0, 1, 0, 0, 0, 5, 5, 5, 5];

pub const SPRITE_TILE_FLIPS: [bool; 72] = [false, false, false, false, false, false, false, false, false, false, false, false, false, false, false, true, false, false, false, false, false, false, false, false, false, false, false, true, false, false, false, false, false, true, false, false, false, false, false, false, false, false, true, true, false, true, true, false, false, false, false, false, false, false, false, false, true, false, false, false, false, false, false, true, false, false, false, true, false, true, true, false];

pub const TILE_16S: [[u16; 4]; 66] = [
    [644, 645, 646, 647],
    [231, 232, 233, 234],
    [235, 236, 237, 238],
    [0, 0, 0, 0],
    [78, 78, 78, 78],
    [2, 3, 18, 19],
    [0, 0, 0, 0],
    [6, 7, 22, 23],
    [8, 9, 24, 25],
    [10, 13, 26, 29],
    [12, 13, 28, 29],
    [14, 15, 30, 31],
    [12, 11, 28, 27],
    [2, 3, 18, 19],
    [4, 5, 20, 21],
    [32, 33, 48, 49],
    [34, 35, 50, 51],
    [36, 37, 52, 53],
    [38, 39, 54, 55],
    [40, 41, 56, 57],
    [41, 40, 57, 56],
    [44, 45, 60, 61],
    [46, 47, 62, 63],
    [32, 33, 48, 49],
    [64, 65, 80, 81],
    [76, 37, 52, 77],
    [0, 0, 0, 0],
    [42, 43, 58, 59],
    [0, 0, 0, 0],
    [66, 67, 82, 83],
    [66, 67, 82, 83],
    [74, 75, 84, 85],
    [68, 71, 84, 87],
    [68, 69, 90, 91],
    [70, 69, 86, 85],
    [74, 73, 84, 87],
    [68, 71, 90, 89],
    [70, 69, 88, 91],
    [72, 75, 86, 85],
    [74, 73, 90, 89],
    [70, 71, 88, 89],
    [72, 75, 88, 91],
    [72, 73, 86, 87],
    [74, 75, 90, 91],
    [70, 71, 86, 87],
    [68, 69, 84, 85],
    [72, 73, 88, 89],
    [74, 75, 84, 85],
    [68, 71, 84, 87],
    [68, 69, 90, 91],
    [70, 69, 86, 85],
    [74, 73, 84, 87],
    [68, 71, 90, 89],
    [70, 69, 88, 91],
    [72, 75, 86, 85],
    [74, 73, 90, 89],
    [70, 71, 88, 89],
    [72, 75, 88, 91],
    [72, 73, 86, 87],
    [74, 75, 90, 91],
    [70, 71, 86, 87],
    [68, 69, 84, 85],
    [72, 73, 88, 89],
    [672, 673, 674, 675],
    [672, 673, 674, 675],
    [676, 677, 678, 67],
];

} // verus!
