//! The note and sine tables. Everything in the render path is integer, so
//! the tables hold what a formula would give, rounded once.

use vstd::prelude::*;

verus! {

/// Phase increment per sample of octave 8, in sixteenths of a semitone
/// from C-8: the frequency times 2^32 over the sample rate, with A-4 at
/// 440 Hz. Lower octaves halve it.
pub const OCTAVE_8_INC: [u32; 192] = [
    407681904, 409156353, 410636135, 412121268, 413611773, 415107669, 416608975, 418115710,
    419627895, 421145549, 422668692, 424197343, 425731523, 427271252, 428816550, 430367436,
    431923931, 433486056, 435053830, 436627274, 438206409, 439791256, 441381834, 442978164,
    444580268, 446188167, 447801880, 449421430, 451046837, 452678123, 454315309, 455958415,
    457607465, 459262478, 460923477, 462590483, 464263518, 465942604, 467627763, 469319017,
    471016387, 472719896, 474429566, 476145419, 477867478, 479595765, 481330303, 483071114,
    484818220, 486571646, 488331413, 490097545, 491870064, 493648994, 495434357, 497226178,
    499024479, 500829283, 502640616, 504458499, 506282957, 508114013, 509951692, 511796017,
    513647012, 515504702, 517369110, 519240261, 521118180, 523002890, 524894417, 526792785,
    528698018, 530610142, 532529182, 534455162, 536388108, 538328045, 540274997, 542228992,
    544190053, 546158206, 548133478, 550115894, 552105479, 554102260, 556106263, 558117514,
    560136038, 562161863, 564195015, 566235520, 568283405, 570338696, 572401421, 574471605,
    576549277, 578634463, 580727191, 582827487, 584935380, 587050895, 589174062, 591304908,
    593443461, 595589747, 597743796, 599905636, 602075294, 604252800, 606438180, 608631465,
    610832681, 613041859, 615259027, 617484213, 619717447, 621958758, 624208175, 626465728,
    628731445, 631005357, 633287492, 635577882, 637876554, 640183541, 642498871, 644822575,
    647154683, 649495225, 651844232, 654201735, 656567764, 658942351, 661325525, 663717318,
    666117762, 668526888, 670944726, 673371309, 675806668, 678250835, 680703842, 683165720,
    685636503, 688116221, 690604907, 693102595, 695609315, 698125102, 700649987, 703184004,
    705727186, 708279565, 710841176, 713412051, 715992224, 718581729, 721180599, 723788868,
    726406571, 729033741, 731670412, 734316620, 736972398, 739637780, 742312803, 744997501,
    747691908, 750396060, 753109992, 755833739, 758567337, 761310822, 764064229, 766827594,
    769600953, 772384343, 775177799, 777981358, 780795057, 783618932, 786453020, 789297357,
    792151982, 795016931, 797892242, 800777952, 803674098, 806580719, 809497852, 812425535,
];

/// One period of a sine in 256 steps, peak 32767.
pub const SINE: [i16; 256] = [
    0, 804, 1608, 2410, 3212, 4011, 4808, 5602, 6393, 7179, 7962, 8739,
    9512, 10278, 11039, 11793, 12539, 13279, 14010, 14732, 15446, 16151, 16846, 17530,
    18204, 18868, 19519, 20159, 20787, 21403, 22005, 22594, 23170, 23731, 24279, 24811,
    25329, 25832, 26319, 26790, 27245, 27683, 28105, 28510, 28898, 29268, 29621, 29956,
    30273, 30571, 30852, 31113, 31356, 31580, 31785, 31971, 32137, 32285, 32412, 32521,
    32609, 32678, 32728, 32757, 32767, 32757, 32728, 32678, 32609, 32521, 32412, 32285,
    32137, 31971, 31785, 31580, 31356, 31113, 30852, 30571, 30273, 29956, 29621, 29268,
    28898, 28510, 28105, 27683, 27245, 26790, 26319, 25832, 25329, 24811, 24279, 23731,
    23170, 22594, 22005, 21403, 20787, 20159, 19519, 18868, 18204, 17530, 16846, 16151,
    15446, 14732, 14010, 13279, 12539, 11793, 11039, 10278, 9512, 8739, 7962, 7179,
    6393, 5602, 4808, 4011, 3212, 2410, 1608, 804, 0, -804, -1608, -2410,
    -3212, -4011, -4808, -5602, -6393, -7179, -7962, -8739, -9512, -10278, -11039, -11793,
    -12539, -13279, -14010, -14732, -15446, -16151, -16846, -17530, -18204, -18868, -19519, -20159,
    -20787, -21403, -22005, -22594, -23170, -23731, -24279, -24811, -25329, -25832, -26319, -26790,
    -27245, -27683, -28105, -28510, -28898, -29268, -29621, -29956, -30273, -30571, -30852, -31113,
    -31356, -31580, -31785, -31971, -32137, -32285, -32412, -32521, -32609, -32678, -32728, -32757,
    -32767, -32757, -32728, -32678, -32609, -32521, -32412, -32285, -32137, -31971, -31785, -31580,
    -31356, -31113, -30852, -30571, -30273, -29956, -29621, -29268, -28898, -28510, -28105, -27683,
    -27245, -26790, -26319, -25832, -25329, -24811, -24279, -23731, -23170, -22594, -22005, -21403,
    -20787, -20159, -19519, -18868, -18204, -17530, -16846, -16151, -15446, -14732, -14010, -13279,
    -12539, -11793, -11039, -10278, -9512, -8739, -7962, -7179, -6393, -5602, -4808, -4011,
    -3212, -2410, -1608, -804,
];

} // verus!
