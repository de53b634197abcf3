//! The root powers of the transform as numbers, and what holds between
//! them: each is undone by the one at the mirrored place of its layer,
//! each is a square root of the one above it, up to the sign, and all are
//! powers of the root of unity 1753, in bit-reversed order.
use vstd::prelude::*;
use crate::ring::{canon, q};

verus! {

/// The number of the root power that undoes the root power `k`: the one
/// at the mirrored place of the same layer.
pub open spec fn mirror(k: int) -> int {
    if k < 2 {
        2 - k
    } else if k < 4 {
        5 - k
    } else if k < 8 {
        11 - k
    } else if k < 16 {
        23 - k
    } else if k < 32 {
        47 - k
    } else if k < 64 {
        95 - k
    } else if k < 128 {
        191 - k
    } else {
        383 - k
    }
}

/// The root powers of the transform as residues in `[0, q)`: what the
/// table holds, divided by `2^32`.
pub open spec fn zeta_table(k: int) -> int {
    if k < 128 {
        if k < 64 {
            if k < 32 {
                if k < 16 {
                    if k < 8 {
                        if k < 4 {
                            if k < 2 {
                                if k < 1 {
                                    0
                                } else {
                                    4808194
                                }
                            } else {
                                if k < 3 {
                                    3765607
                                } else {
                                    3761513
                                }
                            }
                        } else {
                            if k < 6 {
                                if k < 5 {
                                    5178923
                                } else {
                                    5496691
                                }
                            } else {
                                if k < 7 {
                                    5234739
                                } else {
                                    5178987
                                }
                            }
                        }
                    } else {
                        if k < 12 {
                            if k < 10 {
                                if k < 9 {
                                    7778734
                                } else {
                                    3542485
                                }
                            } else {
                                if k < 11 {
                                    2682288
                                } else {
                                    2129892
                                }
                            }
                        } else {
                            if k < 14 {
                                if k < 13 {
                                    3764867
                                } else {
                                    7375178
                                }
                            } else {
                                if k < 15 {
                                    557458
                                } else {
                                    7159240
                                }
                            }
                        }
                    }
                } else {
                    if k < 24 {
                        if k < 20 {
                            if k < 18 {
                                if k < 17 {
                                    5010068
                                } else {
                                    4317364
                                }
                            } else {
                                if k < 19 {
                                    2663378
                                } else {
                                    6705802
                                }
                            }
                        } else {
                            if k < 22 {
                                if k < 21 {
                                    4855975
                                } else {
                                    7946292
                                }
                            } else {
                                if k < 23 {
                                    676590
                                } else {
                                    7044481
                                }
                            }
                        }
                    } else {
                        if k < 28 {
                            if k < 26 {
                                if k < 25 {
                                    5152541
                                } else {
                                    1714295
                                }
                            } else {
                                if k < 27 {
                                    2453983
                                } else {
                                    1460718
                                }
                            }
                        } else {
                            if k < 30 {
                                if k < 29 {
                                    7737789
                                } else {
                                    4795319
                                }
                            } else {
                                if k < 31 {
                                    2815639
                                } else {
                                    2283733
                                }
                            }
                        }
                    }
                }
            } else {
                if k < 48 {
                    if k < 40 {
                        if k < 36 {
                            if k < 34 {
                                if k < 33 {
                                    3602218
                                } else {
                                    3182878
                                }
                            } else {
                                if k < 35 {
                                    2740543
                                } else {
                                    4793971
                                }
                            }
                        } else {
                            if k < 38 {
                                if k < 37 {
                                    5269599
                                } else {
                                    2101410
                                }
                            } else {
                                if k < 39 {
                                    3704823
                                } else {
                                    1159875
                                }
                            }
                        }
                    } else {
                        if k < 44 {
                            if k < 42 {
                                if k < 41 {
                                    394148
                                } else {
                                    928749
                                }
                            } else {
                                if k < 43 {
                                    1095468
                                } else {
                                    4874037
                                }
                            }
                        } else {
                            if k < 46 {
                                if k < 45 {
                                    2071829
                                } else {
                                    4361428
                                }
                            } else {
                                if k < 47 {
                                    3241972
                                } else {
                                    2156050
                                }
                            }
                        }
                    }
                } else {
                    if k < 56 {
                        if k < 52 {
                            if k < 50 {
                                if k < 49 {
                                    3415069
                                } else {
                                    1759347
                                }
                            } else {
                                if k < 51 {
                                    7562881
                                } else {
                                    4805951
                                }
                            }
                        } else {
                            if k < 54 {
                                if k < 53 {
                                    3756790
                                } else {
                                    6444618
                                }
                            } else {
                                if k < 55 {
                                    6663429
                                } else {
                                    4430364
                                }
                            }
                        }
                    } else {
                        if k < 60 {
                            if k < 58 {
                                if k < 57 {
                                    5483103
                                } else {
                                    3192354
                                }
                            } else {
                                if k < 59 {
                                    556856
                                } else {
                                    3870317
                                }
                            }
                        } else {
                            if k < 62 {
                                if k < 61 {
                                    2917338
                                } else {
                                    1853806
                                }
                            } else {
                                if k < 63 {
                                    3345963
                                } else {
                                    1858416
                                }
                            }
                        }
                    }
                }
            }
        } else {
            if k < 96 {
                if k < 80 {
                    if k < 72 {
                        if k < 68 {
                            if k < 66 {
                                if k < 65 {
                                    3073009
                                } else {
                                    1277625
                                }
                            } else {
                                if k < 67 {
                                    5744944
                                } else {
                                    3852015
                                }
                            }
                        } else {
                            if k < 70 {
                                if k < 69 {
                                    4183372
                                } else {
                                    5157610
                                }
                            } else {
                                if k < 71 {
                                    5258977
                                } else {
                                    8106357
                                }
                            }
                        }
                    } else {
                        if k < 76 {
                            if k < 74 {
                                if k < 73 {
                                    2508980
                                } else {
                                    2028118
                                }
                            } else {
                                if k < 75 {
                                    1937570
                                } else {
                                    4564692
                                }
                            }
                        } else {
                            if k < 78 {
                                if k < 77 {
                                    2811291
                                } else {
                                    5396636
                                }
                            } else {
                                if k < 79 {
                                    7270901
                                } else {
                                    4158088
                                }
                            }
                        }
                    }
                } else {
                    if k < 88 {
                        if k < 84 {
                            if k < 82 {
                                if k < 81 {
                                    1528066
                                } else {
                                    482649
                                }
                            } else {
                                if k < 83 {
                                    1148858
                                } else {
                                    5418153
                                }
                            }
                        } else {
                            if k < 86 {
                                if k < 85 {
                                    7814814
                                } else {
                                    169688
                                }
                            } else {
                                if k < 87 {
                                    2462444
                                } else {
                                    5046034
                                }
                            }
                        }
                    } else {
                        if k < 92 {
                            if k < 90 {
                                if k < 89 {
                                    4213992
                                } else {
                                    4892034
                                }
                            } else {
                                if k < 91 {
                                    1987814
                                } else {
                                    5183169
                                }
                            }
                        } else {
                            if k < 94 {
                                if k < 93 {
                                    1736313
                                } else {
                                    235407
                                }
                            } else {
                                if k < 95 {
                                    5130263
                                } else {
                                    3258457
                                }
                            }
                        }
                    }
                }
            } else {
                if k < 112 {
                    if k < 104 {
                        if k < 100 {
                            if k < 98 {
                                if k < 97 {
                                    5801164
                                } else {
                                    1787943
                                }
                            } else {
                                if k < 99 {
                                    5989328
                                } else {
                                    6125690
                                }
                            }
                        } else {
                            if k < 102 {
                                if k < 101 {
                                    3482206
                                } else {
                                    4197502
                                }
                            } else {
                                if k < 103 {
                                    7080401
                                } else {
                                    6018354
                                }
                            }
                        }
                    } else {
                        if k < 108 {
                            if k < 106 {
                                if k < 105 {
                                    7062739
                                } else {
                                    2461387
                                }
                            } else {
                                if k < 107 {
                                    3035980
                                } else {
                                    621164
                                }
                            }
                        } else {
                            if k < 110 {
                                if k < 109 {
                                    3901472
                                } else {
                                    7153756
                                }
                            } else {
                                if k < 111 {
                                    2925816
                                } else {
                                    3374250
                                }
                            }
                        }
                    }
                } else {
                    if k < 120 {
                        if k < 116 {
                            if k < 114 {
                                if k < 113 {
                                    1356448
                                } else {
                                    5604662
                                }
                            } else {
                                if k < 115 {
                                    2683270
                                } else {
                                    5601629
                                }
                            }
                        } else {
                            if k < 118 {
                                if k < 117 {
                                    4912752
                                } else {
                                    2312838
                                }
                            } else {
                                if k < 119 {
                                    7727142
                                } else {
                                    7921254
                                }
                            }
                        }
                    } else {
                        if k < 124 {
                            if k < 122 {
                                if k < 121 {
                                    348812
                                } else {
                                    8052569
                                }
                            } else {
                                if k < 123 {
                                    1011223
                                } else {
                                    6026202
                                }
                            }
                        } else {
                            if k < 126 {
                                if k < 125 {
                                    4561790
                                } else {
                                    6458164
                                }
                            } else {
                                if k < 127 {
                                    6143691
                                } else {
                                    1744507
                                }
                            }
                        }
                    }
                }
            }
        }
    } else {
        if k < 192 {
            if k < 160 {
                if k < 144 {
                    if k < 136 {
                        if k < 132 {
                            if k < 130 {
                                if k < 129 {
                                    1753
                                } else {
                                    6444997
                                }
                            } else {
                                if k < 131 {
                                    5720892
                                } else {
                                    6924527
                                }
                            }
                        } else {
                            if k < 134 {
                                if k < 133 {
                                    2660408
                                } else {
                                    6600190
                                }
                            } else {
                                if k < 135 {
                                    8321269
                                } else {
                                    2772600
                                }
                            }
                        }
                    } else {
                        if k < 140 {
                            if k < 138 {
                                if k < 137 {
                                    1182243
                                } else {
                                    87208
                                }
                            } else {
                                if k < 139 {
                                    636927
                                } else {
                                    4415111
                                }
                            }
                        } else {
                            if k < 142 {
                                if k < 141 {
                                    4423672
                                } else {
                                    6084020
                                }
                            } else {
                                if k < 143 {
                                    5095502
                                } else {
                                    4663471
                                }
                            }
                        }
                    }
                } else {
                    if k < 152 {
                        if k < 148 {
                            if k < 146 {
                                if k < 145 {
                                    8352605
                                } else {
                                    822541
                                }
                            } else {
                                if k < 147 {
                                    1009365
                                } else {
                                    5926272
                                }
                            }
                        } else {
                            if k < 150 {
                                if k < 149 {
                                    6400920
                                } else {
                                    1596822
                                }
                            } else {
                                if k < 151 {
                                    4423473
                                } else {
                                    4620952
                                }
                            }
                        }
                    } else {
                        if k < 156 {
                            if k < 154 {
                                if k < 153 {
                                    6695264
                                } else {
                                    4969849
                                }
                            } else {
                                if k < 155 {
                                    2678278
                                } else {
                                    4611469
                                }
                            }
                        } else {
                            if k < 158 {
                                if k < 157 {
                                    4829411
                                } else {
                                    635956
                                }
                            } else {
                                if k < 159 {
                                    8129971
                                } else {
                                    5925040
                                }
                            }
                        }
                    }
                }
            } else {
                if k < 176 {
                    if k < 168 {
                        if k < 164 {
                            if k < 162 {
                                if k < 161 {
                                    4234153
                                } else {
                                    6607829
                                }
                            } else {
                                if k < 163 {
                                    2192938
                                } else {
                                    6653329
                                }
                            }
                        } else {
                            if k < 166 {
                                if k < 165 {
                                    2387513
                                } else {
                                    4768667
                                }
                            } else {
                                if k < 167 {
                                    8111961
                                } else {
                                    5199961
                                }
                            }
                        }
                    } else {
                        if k < 172 {
                            if k < 170 {
                                if k < 169 {
                                    3747250
                                } else {
                                    2296099
                                }
                            } else {
                                if k < 171 {
                                    1239911
                                } else {
                                    4541938
                                }
                            }
                        } else {
                            if k < 174 {
                                if k < 173 {
                                    3195676
                                } else {
                                    2642980
                                }
                            } else {
                                if k < 175 {
                                    1254190
                                } else {
                                    8368000
                                }
                            }
                        }
                    }
                } else {
                    if k < 184 {
                        if k < 180 {
                            if k < 178 {
                                if k < 177 {
                                    2998219
                                } else {
                                    141835
                                }
                            } else {
                                if k < 179 {
                                    8291116
                                } else {
                                    2513018
                                }
                            }
                        } else {
                            if k < 182 {
                                if k < 181 {
                                    7025525
                                } else {
                                    613238
                                }
                            } else {
                                if k < 183 {
                                    7070156
                                } else {
                                    6161950
                                }
                            }
                        }
                    } else {
                        if k < 188 {
                            if k < 186 {
                                if k < 185 {
                                    7921677
                                } else {
                                    6458423
                                }
                            } else {
                                if k < 187 {
                                    4040196
                                } else {
                                    4908348
                                }
                            }
                        } else {
                            if k < 190 {
                                if k < 189 {
                                    2039144
                                } else {
                                    6500539
                                }
                            } else {
                                if k < 191 {
                                    7561656
                                } else {
                                    6201452
                                }
                            }
                        }
                    }
                }
            }
        } else {
            if k < 224 {
                if k < 208 {
                    if k < 200 {
                        if k < 196 {
                            if k < 194 {
                                if k < 193 {
                                    6757063
                                } else {
                                    2105286
                                }
                            } else {
                                if k < 195 {
                                    6006015
                                } else {
                                    6346610
                                }
                            }
                        } else {
                            if k < 198 {
                                if k < 197 {
                                    586241
                                } else {
                                    7200804
                                }
                            } else {
                                if k < 199 {
                                    527981
                                } else {
                                    5637006
                                }
                            }
                        }
                    } else {
                        if k < 204 {
                            if k < 202 {
                                if k < 201 {
                                    6903432
                                } else {
                                    1994046
                                }
                            } else {
                                if k < 203 {
                                    2491325
                                } else {
                                    6987258
                                }
                            }
                        } else {
                            if k < 206 {
                                if k < 205 {
                                    507927
                                } else {
                                    7192532
                                }
                            } else {
                                if k < 207 {
                                    7655613
                                } else {
                                    6545891
                                }
                            }
                        }
                    }
                } else {
                    if k < 216 {
                        if k < 212 {
                            if k < 210 {
                                if k < 209 {
                                    5346675
                                } else {
                                    8041997
                                }
                            } else {
                                if k < 211 {
                                    2647994
                                } else {
                                    3009748
                                }
                            }
                        } else {
                            if k < 214 {
                                if k < 213 {
                                    5767564
                                } else {
                                    4148469
                                }
                            } else {
                                if k < 215 {
                                    749577
                                } else {
                                    4357667
                                }
                            }
                        }
                    } else {
                        if k < 220 {
                            if k < 218 {
                                if k < 217 {
                                    3980599
                                } else {
                                    2569011
                                }
                            } else {
                                if k < 219 {
                                    6764887
                                } else {
                                    1723229
                                }
                            }
                        } else {
                            if k < 222 {
                                if k < 221 {
                                    1665318
                                } else {
                                    2028038
                                }
                            } else {
                                if k < 223 {
                                    1163598
                                } else {
                                    5011144
                                }
                            }
                        }
                    }
                }
            } else {
                if k < 240 {
                    if k < 232 {
                        if k < 228 {
                            if k < 226 {
                                if k < 225 {
                                    3994671
                                } else {
                                    8368538
                                }
                            } else {
                                if k < 227 {
                                    7009900
                                } else {
                                    3020393
                                }
                            }
                        } else {
                            if k < 230 {
                                if k < 229 {
                                    3363542
                                } else {
                                    214880
                                }
                            } else {
                                if k < 231 {
                                    545376
                                } else {
                                    7609976
                                }
                            }
                        }
                    } else {
                        if k < 236 {
                            if k < 234 {
                                if k < 233 {
                                    3105558
                                } else {
                                    7277073
                                }
                            } else {
                                if k < 235 {
                                    508145
                                } else {
                                    7826699
                                }
                            }
                        } else {
                            if k < 238 {
                                if k < 237 {
                                    860144
                                } else {
                                    3430436
                                }
                            } else {
                                if k < 239 {
                                    140244
                                } else {
                                    6866265
                                }
                            }
                        }
                    }
                } else {
                    if k < 248 {
                        if k < 244 {
                            if k < 242 {
                                if k < 241 {
                                    6195333
                                } else {
                                    3123762
                                }
                            } else {
                                if k < 243 {
                                    2358373
                                } else {
                                    6187330
                                }
                            }
                        } else {
                            if k < 246 {
                                if k < 245 {
                                    5365997
                                } else {
                                    6663603
                                }
                            } else {
                                if k < 247 {
                                    2926054
                                } else {
                                    7987710
                                }
                            }
                        }
                    } else {
                        if k < 252 {
                            if k < 250 {
                                if k < 249 {
                                    8077412
                                } else {
                                    3531229
                                }
                            } else {
                                if k < 251 {
                                    4405932
                                } else {
                                    4606686
                                }
                            }
                        } else {
                            if k < 254 {
                                if k < 253 {
                                    1900052
                                } else {
                                    7598542
                                }
                            } else {
                                if k < 255 {
                                    1054478
                                } else {
                                    7648983
                                }
                            }
                        }
                    }
                }
            }
        }
    }
}

proof fn lemma_table_pair_0(k: int)
    requires
        1 <= k < 32,
    ensures
        canon(zeta_table(k) * zeta_table(mirror(k))) == q() - 1,
        1 <= mirror(k) < 256,
{
}

proof fn lemma_table_pair_1(k: int)
    requires
        32 <= k < 64,
    ensures
        canon(zeta_table(k) * zeta_table(mirror(k))) == q() - 1,
        1 <= mirror(k) < 256,
{
}

proof fn lemma_table_pair_2(k: int)
    requires
        64 <= k < 96,
    ensures
        canon(zeta_table(k) * zeta_table(mirror(k))) == q() - 1,
        1 <= mirror(k) < 256,
{
}

proof fn lemma_table_pair_3(k: int)
    requires
        96 <= k < 128,
    ensures
        canon(zeta_table(k) * zeta_table(mirror(k))) == q() - 1,
        1 <= mirror(k) < 256,
{
}

proof fn lemma_table_pair_4(k: int)
    requires
        128 <= k < 160,
    ensures
        canon(zeta_table(k) * zeta_table(mirror(k))) == q() - 1,
        1 <= mirror(k) < 256,
{
}

proof fn lemma_table_pair_5(k: int)
    requires
        160 <= k < 192,
    ensures
        canon(zeta_table(k) * zeta_table(mirror(k))) == q() - 1,
        1 <= mirror(k) < 256,
{
}

proof fn lemma_table_pair_6(k: int)
    requires
        192 <= k < 224,
    ensures
        canon(zeta_table(k) * zeta_table(mirror(k))) == q() - 1,
        1 <= mirror(k) < 256,
{
}

proof fn lemma_table_pair_7(k: int)
    requires
        224 <= k < 256,
    ensures
        canon(zeta_table(k) * zeta_table(mirror(k))) == q() - 1,
        1 <= mirror(k) < 256,
{
}

/// An entry of the table times the entry at the mirrored place of its
/// layer is -1.
pub proof fn lemma_table_pair(k: int)
    requires
        1 <= k < 256,
    ensures
        canon(zeta_table(k) * zeta_table(mirror(k))) == q() - 1,
        1 <= mirror(k) < 256,
{
    if k < 32 {
        lemma_table_pair_0(k);
    } else if k < 64 {
        lemma_table_pair_1(k);
    } else if k < 96 {
        lemma_table_pair_2(k);
    } else if k < 128 {
        lemma_table_pair_3(k);
    } else if k < 160 {
        lemma_table_pair_4(k);
    } else if k < 192 {
        lemma_table_pair_5(k);
    } else if k < 224 {
        lemma_table_pair_6(k);
    } else if k < 256 {
        lemma_table_pair_7(k);
    }
}

proof fn lemma_table_square_0(k: int)
    requires
        1 <= k < 8,
    ensures
        canon(zeta_table(k) * zeta_table(k)) == canon(
            if k == 1 {
                -1
            } else if k % 2 == 0 {
                zeta_table(k / 2)
            } else {
                -zeta_table(k / 2)
            },
        ),
{
    if k == 1 {
        assert(zeta_table(1) == 4808194);
        assert((4808194int * 4808194) % 8380417 == 8380416);
    } else if k == 2 {
        assert(k / 2 == 1 && k % 2 == 0);
        assert(zeta_table(2) == 3765607);
        assert(zeta_table(1) == 4808194);
        assert((3765607int * 3765607) % 8380417 == 4808194);
    } else if k == 3 {
        assert(k / 2 == 1 && k % 2 == 1);
        assert(zeta_table(3) == 3761513);
        assert(zeta_table(1) == 4808194);
        assert((3761513int * 3761513) % 8380417 == 3572223);
    } else if k == 4 {
        assert(k / 2 == 2 && k % 2 == 0);
        assert(zeta_table(4) == 5178923);
        assert(zeta_table(2) == 3765607);
        assert((5178923int * 5178923) % 8380417 == 3765607);
    } else if k == 5 {
        assert(k / 2 == 2 && k % 2 == 1);
        assert(zeta_table(5) == 5496691);
        assert(zeta_table(2) == 3765607);
        assert((5496691int * 5496691) % 8380417 == 4614810);
    } else if k == 6 {
        assert(k / 2 == 3 && k % 2 == 0);
        assert(zeta_table(6) == 5234739);
        assert(zeta_table(3) == 3761513);
        assert((5234739int * 5234739) % 8380417 == 3761513);
    } else if k == 7 {
        assert(k / 2 == 3 && k % 2 == 1);
        assert(zeta_table(7) == 5178987);
        assert(zeta_table(3) == 3761513);
        assert((5178987int * 5178987) % 8380417 == 4618904);
    }
}

proof fn lemma_table_square_1(k: int)
    requires
        8 <= k < 16,
    ensures
        canon(zeta_table(k) * zeta_table(k)) == canon(
            if k == 1 {
                -1
            } else if k % 2 == 0 {
                zeta_table(k / 2)
            } else {
                -zeta_table(k / 2)
            },
        ),
{
    if k == 8 {
        assert(k / 2 == 4 && k % 2 == 0);
        assert(zeta_table(8) == 7778734);
        assert(zeta_table(4) == 5178923);
        assert((7778734int * 7778734) % 8380417 == 5178923);
    } else if k == 9 {
        assert(k / 2 == 4 && k % 2 == 1);
        assert(zeta_table(9) == 3542485);
        assert(zeta_table(4) == 5178923);
        assert((3542485int * 3542485) % 8380417 == 3201494);
    } else if k == 10 {
        assert(k / 2 == 5 && k % 2 == 0);
        assert(zeta_table(10) == 2682288);
        assert(zeta_table(5) == 5496691);
        assert((2682288int * 2682288) % 8380417 == 5496691);
    } else if k == 11 {
        assert(k / 2 == 5 && k % 2 == 1);
        assert(zeta_table(11) == 2129892);
        assert(zeta_table(5) == 5496691);
        assert((2129892int * 2129892) % 8380417 == 2883726);
    } else if k == 12 {
        assert(k / 2 == 6 && k % 2 == 0);
        assert(zeta_table(12) == 3764867);
        assert(zeta_table(6) == 5234739);
        assert((3764867int * 3764867) % 8380417 == 5234739);
    } else if k == 13 {
        assert(k / 2 == 6 && k % 2 == 1);
        assert(zeta_table(13) == 7375178);
        assert(zeta_table(6) == 5234739);
        assert((7375178int * 7375178) % 8380417 == 3145678);
    } else if k == 14 {
        assert(k / 2 == 7 && k % 2 == 0);
        assert(zeta_table(14) == 557458);
        assert(zeta_table(7) == 5178987);
        assert((557458int * 557458) % 8380417 == 5178987);
    } else if k == 15 {
        assert(k / 2 == 7 && k % 2 == 1);
        assert(zeta_table(15) == 7159240);
        assert(zeta_table(7) == 5178987);
        assert((7159240int * 7159240) % 8380417 == 3201430);
    }
}

proof fn lemma_table_square_2(k: int)
    requires
        16 <= k < 24,
    ensures
        canon(zeta_table(k) * zeta_table(k)) == canon(
            if k == 1 {
                -1
            } else if k % 2 == 0 {
                zeta_table(k / 2)
            } else {
                -zeta_table(k / 2)
            },
        ),
{
    if k == 16 {
        assert(k / 2 == 8 && k % 2 == 0);
        assert(zeta_table(16) == 5010068);
        assert(zeta_table(8) == 7778734);
        assert((5010068int * 5010068) % 8380417 == 7778734);
    } else if k == 17 {
        assert(k / 2 == 8 && k % 2 == 1);
        assert(zeta_table(17) == 4317364);
        assert(zeta_table(8) == 7778734);
        assert((4317364int * 4317364) % 8380417 == 601683);
    } else if k == 18 {
        assert(k / 2 == 9 && k % 2 == 0);
        assert(zeta_table(18) == 2663378);
        assert(zeta_table(9) == 3542485);
        assert((2663378int * 2663378) % 8380417 == 3542485);
    } else if k == 19 {
        assert(k / 2 == 9 && k % 2 == 1);
        assert(zeta_table(19) == 6705802);
        assert(zeta_table(9) == 3542485);
        assert((6705802int * 6705802) % 8380417 == 4837932);
    } else if k == 20 {
        assert(k / 2 == 10 && k % 2 == 0);
        assert(zeta_table(20) == 4855975);
        assert(zeta_table(10) == 2682288);
        assert((4855975int * 4855975) % 8380417 == 2682288);
    } else if k == 21 {
        assert(k / 2 == 10 && k % 2 == 1);
        assert(zeta_table(21) == 7946292);
        assert(zeta_table(10) == 2682288);
        assert((7946292int * 7946292) % 8380417 == 5698129);
    } else if k == 22 {
        assert(k / 2 == 11 && k % 2 == 0);
        assert(zeta_table(22) == 676590);
        assert(zeta_table(11) == 2129892);
        assert((676590int * 676590) % 8380417 == 2129892);
    } else if k == 23 {
        assert(k / 2 == 11 && k % 2 == 1);
        assert(zeta_table(23) == 7044481);
        assert(zeta_table(11) == 2129892);
        assert((7044481int * 7044481) % 8380417 == 6250525);
    }
}

proof fn lemma_table_square_3(k: int)
    requires
        24 <= k < 32,
    ensures
        canon(zeta_table(k) * zeta_table(k)) == canon(
            if k == 1 {
                -1
            } else if k % 2 == 0 {
                zeta_table(k / 2)
            } else {
                -zeta_table(k / 2)
            },
        ),
{
    if k == 24 {
        assert(k / 2 == 12 && k % 2 == 0);
        assert(zeta_table(24) == 5152541);
        assert(zeta_table(12) == 3764867);
        assert((5152541int * 5152541) % 8380417 == 3764867);
    } else if k == 25 {
        assert(k / 2 == 12 && k % 2 == 1);
        assert(zeta_table(25) == 1714295);
        assert(zeta_table(12) == 3764867);
        assert((1714295int * 1714295) % 8380417 == 4615550);
    } else if k == 26 {
        assert(k / 2 == 13 && k % 2 == 0);
        assert(zeta_table(26) == 2453983);
        assert(zeta_table(13) == 7375178);
        assert((2453983int * 2453983) % 8380417 == 7375178);
    } else if k == 27 {
        assert(k / 2 == 13 && k % 2 == 1);
        assert(zeta_table(27) == 1460718);
        assert(zeta_table(13) == 7375178);
        assert((1460718int * 1460718) % 8380417 == 1005239);
    } else if k == 28 {
        assert(k / 2 == 14 && k % 2 == 0);
        assert(zeta_table(28) == 7737789);
        assert(zeta_table(14) == 557458);
        assert((7737789int * 7737789) % 8380417 == 557458);
    } else if k == 29 {
        assert(k / 2 == 14 && k % 2 == 1);
        assert(zeta_table(29) == 4795319);
        assert(zeta_table(14) == 557458);
        assert((4795319int * 4795319) % 8380417 == 7822959);
    } else if k == 30 {
        assert(k / 2 == 15 && k % 2 == 0);
        assert(zeta_table(30) == 2815639);
        assert(zeta_table(15) == 7159240);
        assert((2815639int * 2815639) % 8380417 == 7159240);
    } else if k == 31 {
        assert(k / 2 == 15 && k % 2 == 1);
        assert(zeta_table(31) == 2283733);
        assert(zeta_table(15) == 7159240);
        assert((2283733int * 2283733) % 8380417 == 1221177);
    }
}

proof fn lemma_table_square_4(k: int)
    requires
        32 <= k < 40,
    ensures
        canon(zeta_table(k) * zeta_table(k)) == canon(
            if k == 1 {
                -1
            } else if k % 2 == 0 {
                zeta_table(k / 2)
            } else {
                -zeta_table(k / 2)
            },
        ),
{
    if k == 32 {
        assert(k / 2 == 16 && k % 2 == 0);
        assert(zeta_table(32) == 3602218);
        assert(zeta_table(16) == 5010068);
        assert((3602218int * 3602218) % 8380417 == 5010068);
    } else if k == 33 {
        assert(k / 2 == 16 && k % 2 == 1);
        assert(zeta_table(33) == 3182878);
        assert(zeta_table(16) == 5010068);
        assert((3182878int * 3182878) % 8380417 == 3370349);
    } else if k == 34 {
        assert(k / 2 == 17 && k % 2 == 0);
        assert(zeta_table(34) == 2740543);
        assert(zeta_table(17) == 4317364);
        assert((2740543int * 2740543) % 8380417 == 4317364);
    } else if k == 35 {
        assert(k / 2 == 17 && k % 2 == 1);
        assert(zeta_table(35) == 4793971);
        assert(zeta_table(17) == 4317364);
        assert((4793971int * 4793971) % 8380417 == 4063053);
    } else if k == 36 {
        assert(k / 2 == 18 && k % 2 == 0);
        assert(zeta_table(36) == 5269599);
        assert(zeta_table(18) == 2663378);
        assert((5269599int * 5269599) % 8380417 == 2663378);
    } else if k == 37 {
        assert(k / 2 == 18 && k % 2 == 1);
        assert(zeta_table(37) == 2101410);
        assert(zeta_table(18) == 2663378);
        assert((2101410int * 2101410) % 8380417 == 5717039);
    } else if k == 38 {
        assert(k / 2 == 19 && k % 2 == 0);
        assert(zeta_table(38) == 3704823);
        assert(zeta_table(19) == 6705802);
        assert((3704823int * 3704823) % 8380417 == 6705802);
    } else if k == 39 {
        assert(k / 2 == 19 && k % 2 == 1);
        assert(zeta_table(39) == 1159875);
        assert(zeta_table(19) == 6705802);
        assert((1159875int * 1159875) % 8380417 == 1674615);
    }
}

proof fn lemma_table_square_5(k: int)
    requires
        40 <= k < 48,
    ensures
        canon(zeta_table(k) * zeta_table(k)) == canon(
            if k == 1 {
                -1
            } else if k % 2 == 0 {
                zeta_table(k / 2)
            } else {
                -zeta_table(k / 2)
            },
        ),
{
    if k == 40 {
        assert(k / 2 == 20 && k % 2 == 0);
        assert(zeta_table(40) == 394148);
        assert(zeta_table(20) == 4855975);
        assert((394148int * 394148) % 8380417 == 4855975);
    } else if k == 41 {
        assert(k / 2 == 20 && k % 2 == 1);
        assert(zeta_table(41) == 928749);
        assert(zeta_table(20) == 4855975);
        assert((928749int * 928749) % 8380417 == 3524442);
    } else if k == 42 {
        assert(k / 2 == 21 && k % 2 == 0);
        assert(zeta_table(42) == 1095468);
        assert(zeta_table(21) == 7946292);
        assert((1095468int * 1095468) % 8380417 == 7946292);
    } else if k == 43 {
        assert(k / 2 == 21 && k % 2 == 1);
        assert(zeta_table(43) == 4874037);
        assert(zeta_table(21) == 7946292);
        assert((4874037int * 4874037) % 8380417 == 434125);
    } else if k == 44 {
        assert(k / 2 == 22 && k % 2 == 0);
        assert(zeta_table(44) == 2071829);
        assert(zeta_table(22) == 676590);
        assert((2071829int * 2071829) % 8380417 == 676590);
    } else if k == 45 {
        assert(k / 2 == 22 && k % 2 == 1);
        assert(zeta_table(45) == 4361428);
        assert(zeta_table(22) == 676590);
        assert((4361428int * 4361428) % 8380417 == 7703827);
    } else if k == 46 {
        assert(k / 2 == 23 && k % 2 == 0);
        assert(zeta_table(46) == 3241972);
        assert(zeta_table(23) == 7044481);
        assert((3241972int * 3241972) % 8380417 == 7044481);
    } else if k == 47 {
        assert(k / 2 == 23 && k % 2 == 1);
        assert(zeta_table(47) == 2156050);
        assert(zeta_table(23) == 7044481);
        assert((2156050int * 2156050) % 8380417 == 1335936);
    }
}

proof fn lemma_table_square_6(k: int)
    requires
        48 <= k < 56,
    ensures
        canon(zeta_table(k) * zeta_table(k)) == canon(
            if k == 1 {
                -1
            } else if k % 2 == 0 {
                zeta_table(k / 2)
            } else {
                -zeta_table(k / 2)
            },
        ),
{
    if k == 48 {
        assert(k / 2 == 24 && k % 2 == 0);
        assert(zeta_table(48) == 3415069);
        assert(zeta_table(24) == 5152541);
        assert((3415069int * 3415069) % 8380417 == 5152541);
    } else if k == 49 {
        assert(k / 2 == 24 && k % 2 == 1);
        assert(zeta_table(49) == 1759347);
        assert(zeta_table(24) == 5152541);
        assert((1759347int * 1759347) % 8380417 == 3227876);
    } else if k == 50 {
        assert(k / 2 == 25 && k % 2 == 0);
        assert(zeta_table(50) == 7562881);
        assert(zeta_table(25) == 1714295);
        assert((7562881int * 7562881) % 8380417 == 1714295);
    } else if k == 51 {
        assert(k / 2 == 25 && k % 2 == 1);
        assert(zeta_table(51) == 4805951);
        assert(zeta_table(25) == 1714295);
        assert((4805951int * 4805951) % 8380417 == 6666122);
    } else if k == 52 {
        assert(k / 2 == 26 && k % 2 == 0);
        assert(zeta_table(52) == 3756790);
        assert(zeta_table(26) == 2453983);
        assert((3756790int * 3756790) % 8380417 == 2453983);
    } else if k == 53 {
        assert(k / 2 == 26 && k % 2 == 1);
        assert(zeta_table(53) == 6444618);
        assert(zeta_table(26) == 2453983);
        assert((6444618int * 6444618) % 8380417 == 5926434);
    } else if k == 54 {
        assert(k / 2 == 27 && k % 2 == 0);
        assert(zeta_table(54) == 6663429);
        assert(zeta_table(27) == 1460718);
        assert((6663429int * 6663429) % 8380417 == 1460718);
    } else if k == 55 {
        assert(k / 2 == 27 && k % 2 == 1);
        assert(zeta_table(55) == 4430364);
        assert(zeta_table(27) == 1460718);
        assert((4430364int * 4430364) % 8380417 == 6919699);
    }
}

proof fn lemma_table_square_7(k: int)
    requires
        56 <= k < 64,
    ensures
        canon(zeta_table(k) * zeta_table(k)) == canon(
            if k == 1 {
                -1
            } else if k % 2 == 0 {
                zeta_table(k / 2)
            } else {
                -zeta_table(k / 2)
            },
        ),
{
    if k == 56 {
        assert(k / 2 == 28 && k % 2 == 0);
        assert(zeta_table(56) == 5483103);
        assert(zeta_table(28) == 7737789);
        assert((5483103int * 5483103) % 8380417 == 7737789);
    } else if k == 57 {
        assert(k / 2 == 28 && k % 2 == 1);
        assert(zeta_table(57) == 3192354);
        assert(zeta_table(28) == 7737789);
        assert((3192354int * 3192354) % 8380417 == 642628);
    } else if k == 58 {
        assert(k / 2 == 29 && k % 2 == 0);
        assert(zeta_table(58) == 556856);
        assert(zeta_table(29) == 4795319);
        assert((556856int * 556856) % 8380417 == 4795319);
    } else if k == 59 {
        assert(k / 2 == 29 && k % 2 == 1);
        assert(zeta_table(59) == 3870317);
        assert(zeta_table(29) == 4795319);
        assert((3870317int * 3870317) % 8380417 == 3585098);
    } else if k == 60 {
        assert(k / 2 == 30 && k % 2 == 0);
        assert(zeta_table(60) == 2917338);
        assert(zeta_table(30) == 2815639);
        assert((2917338int * 2917338) % 8380417 == 2815639);
    } else if k == 61 {
        assert(k / 2 == 30 && k % 2 == 1);
        assert(zeta_table(61) == 1853806);
        assert(zeta_table(30) == 2815639);
        assert((1853806int * 1853806) % 8380417 == 5564778);
    } else if k == 62 {
        assert(k / 2 == 31 && k % 2 == 0);
        assert(zeta_table(62) == 3345963);
        assert(zeta_table(31) == 2283733);
        assert((3345963int * 3345963) % 8380417 == 2283733);
    } else if k == 63 {
        assert(k / 2 == 31 && k % 2 == 1);
        assert(zeta_table(63) == 1858416);
        assert(zeta_table(31) == 2283733);
        assert((1858416int * 1858416) % 8380417 == 6096684);
    }
}

proof fn lemma_table_square_8(k: int)
    requires
        64 <= k < 72,
    ensures
        canon(zeta_table(k) * zeta_table(k)) == canon(
            if k == 1 {
                -1
            } else if k % 2 == 0 {
                zeta_table(k / 2)
            } else {
                -zeta_table(k / 2)
            },
        ),
{
    if k == 64 {
        assert(k / 2 == 32 && k % 2 == 0);
        assert(zeta_table(64) == 3073009);
        assert(zeta_table(32) == 3602218);
        assert((3073009int * 3073009) % 8380417 == 3602218);
    } else if k == 65 {
        assert(k / 2 == 32 && k % 2 == 1);
        assert(zeta_table(65) == 1277625);
        assert(zeta_table(32) == 3602218);
        assert((1277625int * 1277625) % 8380417 == 4778199);
    } else if k == 66 {
        assert(k / 2 == 33 && k % 2 == 0);
        assert(zeta_table(66) == 5744944);
        assert(zeta_table(33) == 3182878);
        assert((5744944int * 5744944) % 8380417 == 3182878);
    } else if k == 67 {
        assert(k / 2 == 33 && k % 2 == 1);
        assert(zeta_table(67) == 3852015);
        assert(zeta_table(33) == 3182878);
        assert((3852015int * 3852015) % 8380417 == 5197539);
    } else if k == 68 {
        assert(k / 2 == 34 && k % 2 == 0);
        assert(zeta_table(68) == 4183372);
        assert(zeta_table(34) == 2740543);
        assert((4183372int * 4183372) % 8380417 == 2740543);
    } else if k == 69 {
        assert(k / 2 == 34 && k % 2 == 1);
        assert(zeta_table(69) == 5157610);
        assert(zeta_table(34) == 2740543);
        assert((5157610int * 5157610) % 8380417 == 5639874);
    } else if k == 70 {
        assert(k / 2 == 35 && k % 2 == 0);
        assert(zeta_table(70) == 5258977);
        assert(zeta_table(35) == 4793971);
        assert((5258977int * 5258977) % 8380417 == 4793971);
    } else if k == 71 {
        assert(k / 2 == 35 && k % 2 == 1);
        assert(zeta_table(71) == 8106357);
        assert(zeta_table(35) == 4793971);
        assert((8106357int * 8106357) % 8380417 == 3586446);
    }
}

proof fn lemma_table_square_9(k: int)
    requires
        72 <= k < 80,
    ensures
        canon(zeta_table(k) * zeta_table(k)) == canon(
            if k == 1 {
                -1
            } else if k % 2 == 0 {
                zeta_table(k / 2)
            } else {
                -zeta_table(k / 2)
            },
        ),
{
    if k == 72 {
        assert(k / 2 == 36 && k % 2 == 0);
        assert(zeta_table(72) == 2508980);
        assert(zeta_table(36) == 5269599);
        assert((2508980int * 2508980) % 8380417 == 5269599);
    } else if k == 73 {
        assert(k / 2 == 36 && k % 2 == 1);
        assert(zeta_table(73) == 2028118);
        assert(zeta_table(36) == 5269599);
        assert((2028118int * 2028118) % 8380417 == 3110818);
    } else if k == 74 {
        assert(k / 2 == 37 && k % 2 == 0);
        assert(zeta_table(74) == 1937570);
        assert(zeta_table(37) == 2101410);
        assert((1937570int * 1937570) % 8380417 == 2101410);
    } else if k == 75 {
        assert(k / 2 == 37 && k % 2 == 1);
        assert(zeta_table(75) == 4564692);
        assert(zeta_table(37) == 2101410);
        assert((4564692int * 4564692) % 8380417 == 6279007);
    } else if k == 76 {
        assert(k / 2 == 38 && k % 2 == 0);
        assert(zeta_table(76) == 2811291);
        assert(zeta_table(38) == 3704823);
        assert((2811291int * 2811291) % 8380417 == 3704823);
    } else if k == 77 {
        assert(k / 2 == 38 && k % 2 == 1);
        assert(zeta_table(77) == 5396636);
        assert(zeta_table(38) == 3704823);
        assert((5396636int * 5396636) % 8380417 == 4675594);
    } else if k == 78 {
        assert(k / 2 == 39 && k % 2 == 0);
        assert(zeta_table(78) == 7270901);
        assert(zeta_table(39) == 1159875);
        assert((7270901int * 7270901) % 8380417 == 1159875);
    } else if k == 79 {
        assert(k / 2 == 39 && k % 2 == 1);
        assert(zeta_table(79) == 4158088);
        assert(zeta_table(39) == 1159875);
        assert((4158088int * 4158088) % 8380417 == 7220542);
    }
}

proof fn lemma_table_square_10(k: int)
    requires
        80 <= k < 88,
    ensures
        canon(zeta_table(k) * zeta_table(k)) == canon(
            if k == 1 {
                -1
            } else if k % 2 == 0 {
                zeta_table(k / 2)
            } else {
                -zeta_table(k / 2)
            },
        ),
{
    if k == 80 {
        assert(k / 2 == 40 && k % 2 == 0);
        assert(zeta_table(80) == 1528066);
        assert(zeta_table(40) == 394148);
        assert((1528066int * 1528066) % 8380417 == 394148);
    } else if k == 81 {
        assert(k / 2 == 40 && k % 2 == 1);
        assert(zeta_table(81) == 482649);
        assert(zeta_table(40) == 394148);
        assert((482649int * 482649) % 8380417 == 7986269);
    } else if k == 82 {
        assert(k / 2 == 41 && k % 2 == 0);
        assert(zeta_table(82) == 1148858);
        assert(zeta_table(41) == 928749);
        assert((1148858int * 1148858) % 8380417 == 928749);
    } else if k == 83 {
        assert(k / 2 == 41 && k % 2 == 1);
        assert(zeta_table(83) == 5418153);
        assert(zeta_table(41) == 928749);
        assert((5418153int * 5418153) % 8380417 == 7451668);
    } else if k == 84 {
        assert(k / 2 == 42 && k % 2 == 0);
        assert(zeta_table(84) == 7814814);
        assert(zeta_table(42) == 1095468);
        assert((7814814int * 7814814) % 8380417 == 1095468);
    } else if k == 85 {
        assert(k / 2 == 42 && k % 2 == 1);
        assert(zeta_table(85) == 169688);
        assert(zeta_table(42) == 1095468);
        assert((169688int * 169688) % 8380417 == 7284949);
    } else if k == 86 {
        assert(k / 2 == 43 && k % 2 == 0);
        assert(zeta_table(86) == 2462444);
        assert(zeta_table(43) == 4874037);
        assert((2462444int * 2462444) % 8380417 == 4874037);
    } else if k == 87 {
        assert(k / 2 == 43 && k % 2 == 1);
        assert(zeta_table(87) == 5046034);
        assert(zeta_table(43) == 4874037);
        assert((5046034int * 5046034) % 8380417 == 3506380);
    }
}

proof fn lemma_table_square_11(k: int)
    requires
        88 <= k < 96,
    ensures
        canon(zeta_table(k) * zeta_table(k)) == canon(
            if k == 1 {
                -1
            } else if k % 2 == 0 {
                zeta_table(k / 2)
            } else {
                -zeta_table(k / 2)
            },
        ),
{
    if k == 88 {
        assert(k / 2 == 44 && k % 2 == 0);
        assert(zeta_table(88) == 4213992);
        assert(zeta_table(44) == 2071829);
        assert((4213992int * 4213992) % 8380417 == 2071829);
    } else if k == 89 {
        assert(k / 2 == 44 && k % 2 == 1);
        assert(zeta_table(89) == 4892034);
        assert(zeta_table(44) == 2071829);
        assert((4892034int * 4892034) % 8380417 == 6308588);
    } else if k == 90 {
        assert(k / 2 == 45 && k % 2 == 0);
        assert(zeta_table(90) == 1987814);
        assert(zeta_table(45) == 4361428);
        assert((1987814int * 1987814) % 8380417 == 4361428);
    } else if k == 91 {
        assert(k / 2 == 45 && k % 2 == 1);
        assert(zeta_table(91) == 5183169);
        assert(zeta_table(45) == 4361428);
        assert((5183169int * 5183169) % 8380417 == 4018989);
    } else if k == 92 {
        assert(k / 2 == 46 && k % 2 == 0);
        assert(zeta_table(92) == 1736313);
        assert(zeta_table(46) == 3241972);
        assert((1736313int * 1736313) % 8380417 == 3241972);
    } else if k == 93 {
        assert(k / 2 == 46 && k % 2 == 1);
        assert(zeta_table(93) == 235407);
        assert(zeta_table(46) == 3241972);
        assert((235407int * 235407) % 8380417 == 5138445);
    } else if k == 94 {
        assert(k / 2 == 47 && k % 2 == 0);
        assert(zeta_table(94) == 5130263);
        assert(zeta_table(47) == 2156050);
        assert((5130263int * 5130263) % 8380417 == 2156050);
    } else if k == 95 {
        assert(k / 2 == 47 && k % 2 == 1);
        assert(zeta_table(95) == 3258457);
        assert(zeta_table(47) == 2156050);
        assert((3258457int * 3258457) % 8380417 == 6224367);
    }
}

proof fn lemma_table_square_12(k: int)
    requires
        96 <= k < 104,
    ensures
        canon(zeta_table(k) * zeta_table(k)) == canon(
            if k == 1 {
                -1
            } else if k % 2 == 0 {
                zeta_table(k / 2)
            } else {
                -zeta_table(k / 2)
            },
        ),
{
    if k == 96 {
        assert(k / 2 == 48 && k % 2 == 0);
        assert(zeta_table(96) == 5801164);
        assert(zeta_table(48) == 3415069);
        assert((5801164int * 5801164) % 8380417 == 3415069);
    } else if k == 97 {
        assert(k / 2 == 48 && k % 2 == 1);
        assert(zeta_table(97) == 1787943);
        assert(zeta_table(48) == 3415069);
        assert((1787943int * 1787943) % 8380417 == 4965348);
    } else if k == 98 {
        assert(k / 2 == 49 && k % 2 == 0);
        assert(zeta_table(98) == 5989328);
        assert(zeta_table(49) == 1759347);
        assert((5989328int * 5989328) % 8380417 == 1759347);
    } else if k == 99 {
        assert(k / 2 == 49 && k % 2 == 1);
        assert(zeta_table(99) == 6125690);
        assert(zeta_table(49) == 1759347);
        assert((6125690int * 6125690) % 8380417 == 6621070);
    } else if k == 100 {
        assert(k / 2 == 50 && k % 2 == 0);
        assert(zeta_table(100) == 3482206);
        assert(zeta_table(50) == 7562881);
        assert((3482206int * 3482206) % 8380417 == 7562881);
    } else if k == 101 {
        assert(k / 2 == 50 && k % 2 == 1);
        assert(zeta_table(101) == 4197502);
        assert(zeta_table(50) == 7562881);
        assert((4197502int * 4197502) % 8380417 == 817536);
    } else if k == 102 {
        assert(k / 2 == 51 && k % 2 == 0);
        assert(zeta_table(102) == 7080401);
        assert(zeta_table(51) == 4805951);
        assert((7080401int * 7080401) % 8380417 == 4805951);
    } else if k == 103 {
        assert(k / 2 == 51 && k % 2 == 1);
        assert(zeta_table(103) == 6018354);
        assert(zeta_table(51) == 4805951);
        assert((6018354int * 6018354) % 8380417 == 3574466);
    }
}

proof fn lemma_table_square_13(k: int)
    requires
        104 <= k < 112,
    ensures
        canon(zeta_table(k) * zeta_table(k)) == canon(
            if k == 1 {
                -1
            } else if k % 2 == 0 {
                zeta_table(k / 2)
            } else {
                -zeta_table(k / 2)
            },
        ),
{
    if k == 104 {
        assert(k / 2 == 52 && k % 2 == 0);
        assert(zeta_table(104) == 7062739);
        assert(zeta_table(52) == 3756790);
        assert((7062739int * 7062739) % 8380417 == 3756790);
    } else if k == 105 {
        assert(k / 2 == 52 && k % 2 == 1);
        assert(zeta_table(105) == 2461387);
        assert(zeta_table(52) == 3756790);
        assert((2461387int * 2461387) % 8380417 == 4623627);
    } else if k == 106 {
        assert(k / 2 == 53 && k % 2 == 0);
        assert(zeta_table(106) == 3035980);
        assert(zeta_table(53) == 6444618);
        assert((3035980int * 3035980) % 8380417 == 6444618);
    } else if k == 107 {
        assert(k / 2 == 53 && k % 2 == 1);
        assert(zeta_table(107) == 621164);
        assert(zeta_table(53) == 6444618);
        assert((621164int * 621164) % 8380417 == 1935799);
    } else if k == 108 {
        assert(k / 2 == 54 && k % 2 == 0);
        assert(zeta_table(108) == 3901472);
        assert(zeta_table(54) == 6663429);
        assert((3901472int * 3901472) % 8380417 == 6663429);
    } else if k == 109 {
        assert(k / 2 == 54 && k % 2 == 1);
        assert(zeta_table(109) == 7153756);
        assert(zeta_table(54) == 6663429);
        assert((7153756int * 7153756) % 8380417 == 1716988);
    } else if k == 110 {
        assert(k / 2 == 55 && k % 2 == 0);
        assert(zeta_table(110) == 2925816);
        assert(zeta_table(55) == 4430364);
        assert((2925816int * 2925816) % 8380417 == 4430364);
    } else if k == 111 {
        assert(k / 2 == 55 && k % 2 == 1);
        assert(zeta_table(111) == 3374250);
        assert(zeta_table(55) == 4430364);
        assert((3374250int * 3374250) % 8380417 == 3950053);
    }
}

proof fn lemma_table_square_14(k: int)
    requires
        112 <= k < 120,
    ensures
        canon(zeta_table(k) * zeta_table(k)) == canon(
            if k == 1 {
                -1
            } else if k % 2 == 0 {
                zeta_table(k / 2)
            } else {
                -zeta_table(k / 2)
            },
        ),
{
    if k == 112 {
        assert(k / 2 == 56 && k % 2 == 0);
        assert(zeta_table(112) == 1356448);
        assert(zeta_table(56) == 5483103);
        assert((1356448int * 1356448) % 8380417 == 5483103);
    } else if k == 113 {
        assert(k / 2 == 56 && k % 2 == 1);
        assert(zeta_table(113) == 5604662);
        assert(zeta_table(56) == 5483103);
        assert((5604662int * 5604662) % 8380417 == 2897314);
    } else if k == 114 {
        assert(k / 2 == 57 && k % 2 == 0);
        assert(zeta_table(114) == 2683270);
        assert(zeta_table(57) == 3192354);
        assert((2683270int * 2683270) % 8380417 == 3192354);
    } else if k == 115 {
        assert(k / 2 == 57 && k % 2 == 1);
        assert(zeta_table(115) == 5601629);
        assert(zeta_table(57) == 3192354);
        assert((5601629int * 5601629) % 8380417 == 5188063);
    } else if k == 116 {
        assert(k / 2 == 58 && k % 2 == 0);
        assert(zeta_table(116) == 4912752);
        assert(zeta_table(58) == 556856);
        assert((4912752int * 4912752) % 8380417 == 556856);
    } else if k == 117 {
        assert(k / 2 == 58 && k % 2 == 1);
        assert(zeta_table(117) == 2312838);
        assert(zeta_table(58) == 556856);
        assert((2312838int * 2312838) % 8380417 == 7823561);
    } else if k == 118 {
        assert(k / 2 == 59 && k % 2 == 0);
        assert(zeta_table(118) == 7727142);
        assert(zeta_table(59) == 3870317);
        assert((7727142int * 7727142) % 8380417 == 3870317);
    } else if k == 119 {
        assert(k / 2 == 59 && k % 2 == 1);
        assert(zeta_table(119) == 7921254);
        assert(zeta_table(59) == 3870317);
        assert((7921254int * 7921254) % 8380417 == 4510100);
    }
}

proof fn lemma_table_square_15(k: int)
    requires
        120 <= k < 128,
    ensures
        canon(zeta_table(k) * zeta_table(k)) == canon(
            if k == 1 {
                -1
            } else if k % 2 == 0 {
                zeta_table(k / 2)
            } else {
                -zeta_table(k / 2)
            },
        ),
{
    if k == 120 {
        assert(k / 2 == 60 && k % 2 == 0);
        assert(zeta_table(120) == 348812);
        assert(zeta_table(60) == 2917338);
        assert((348812int * 348812) % 8380417 == 2917338);
    } else if k == 121 {
        assert(k / 2 == 60 && k % 2 == 1);
        assert(zeta_table(121) == 8052569);
        assert(zeta_table(60) == 2917338);
        assert((8052569int * 8052569) % 8380417 == 5463079);
    } else if k == 122 {
        assert(k / 2 == 61 && k % 2 == 0);
        assert(zeta_table(122) == 1011223);
        assert(zeta_table(61) == 1853806);
        assert((1011223int * 1011223) % 8380417 == 1853806);
    } else if k == 123 {
        assert(k / 2 == 61 && k % 2 == 1);
        assert(zeta_table(123) == 6026202);
        assert(zeta_table(61) == 1853806);
        assert((6026202int * 6026202) % 8380417 == 6526611);
    } else if k == 124 {
        assert(k / 2 == 62 && k % 2 == 0);
        assert(zeta_table(124) == 4561790);
        assert(zeta_table(62) == 3345963);
        assert((4561790int * 4561790) % 8380417 == 3345963);
    } else if k == 125 {
        assert(k / 2 == 62 && k % 2 == 1);
        assert(zeta_table(125) == 6458164);
        assert(zeta_table(62) == 3345963);
        assert((6458164int * 6458164) % 8380417 == 5034454);
    } else if k == 126 {
        assert(k / 2 == 63 && k % 2 == 0);
        assert(zeta_table(126) == 6143691);
        assert(zeta_table(63) == 1858416);
        assert((6143691int * 6143691) % 8380417 == 1858416);
    } else if k == 127 {
        assert(k / 2 == 63 && k % 2 == 1);
        assert(zeta_table(127) == 1744507);
        assert(zeta_table(63) == 1858416);
        assert((1744507int * 1744507) % 8380417 == 6522001);
    }
}

proof fn lemma_table_square_16(k: int)
    requires
        128 <= k < 136,
    ensures
        canon(zeta_table(k) * zeta_table(k)) == canon(
            if k == 1 {
                -1
            } else if k % 2 == 0 {
                zeta_table(k / 2)
            } else {
                -zeta_table(k / 2)
            },
        ),
{
    if k == 128 {
        assert(k / 2 == 64 && k % 2 == 0);
        assert(zeta_table(128) == 1753);
        assert(zeta_table(64) == 3073009);
        assert((1753int * 1753) % 8380417 == 3073009);
    } else if k == 129 {
        assert(k / 2 == 64 && k % 2 == 1);
        assert(zeta_table(129) == 6444997);
        assert(zeta_table(64) == 3073009);
        assert((6444997int * 6444997) % 8380417 == 5307408);
    } else if k == 130 {
        assert(k / 2 == 65 && k % 2 == 0);
        assert(zeta_table(130) == 5720892);
        assert(zeta_table(65) == 1277625);
        assert((5720892int * 5720892) % 8380417 == 1277625);
    } else if k == 131 {
        assert(k / 2 == 65 && k % 2 == 1);
        assert(zeta_table(131) == 6924527);
        assert(zeta_table(65) == 1277625);
        assert((6924527int * 6924527) % 8380417 == 7102792);
    } else if k == 132 {
        assert(k / 2 == 66 && k % 2 == 0);
        assert(zeta_table(132) == 2660408);
        assert(zeta_table(66) == 5744944);
        assert((2660408int * 2660408) % 8380417 == 5744944);
    } else if k == 133 {
        assert(k / 2 == 66 && k % 2 == 1);
        assert(zeta_table(133) == 6600190);
        assert(zeta_table(66) == 5744944);
        assert((6600190int * 6600190) % 8380417 == 2635473);
    } else if k == 134 {
        assert(k / 2 == 67 && k % 2 == 0);
        assert(zeta_table(134) == 8321269);
        assert(zeta_table(67) == 3852015);
        assert((8321269int * 8321269) % 8380417 == 3852015);
    } else if k == 135 {
        assert(k / 2 == 67 && k % 2 == 1);
        assert(zeta_table(135) == 2772600);
        assert(zeta_table(67) == 3852015);
        assert((2772600int * 2772600) % 8380417 == 4528402);
    }
}

proof fn lemma_table_square_17(k: int)
    requires
        136 <= k < 144,
    ensures
        canon(zeta_table(k) * zeta_table(k)) == canon(
            if k == 1 {
                -1
            } else if k % 2 == 0 {
                zeta_table(k / 2)
            } else {
                -zeta_table(k / 2)
            },
        ),
{
    if k == 136 {
        assert(k / 2 == 68 && k % 2 == 0);
        assert(zeta_table(136) == 1182243);
        assert(zeta_table(68) == 4183372);
        assert((1182243int * 1182243) % 8380417 == 4183372);
    } else if k == 137 {
        assert(k / 2 == 68 && k % 2 == 1);
        assert(zeta_table(137) == 87208);
        assert(zeta_table(68) == 4183372);
        assert((87208int * 87208) % 8380417 == 4197045);
    } else if k == 138 {
        assert(k / 2 == 69 && k % 2 == 0);
        assert(zeta_table(138) == 636927);
        assert(zeta_table(69) == 5157610);
        assert((636927int * 636927) % 8380417 == 5157610);
    } else if k == 139 {
        assert(k / 2 == 69 && k % 2 == 1);
        assert(zeta_table(139) == 4415111);
        assert(zeta_table(69) == 5157610);
        assert((4415111int * 4415111) % 8380417 == 3222807);
    } else if k == 140 {
        assert(k / 2 == 70 && k % 2 == 0);
        assert(zeta_table(140) == 4423672);
        assert(zeta_table(70) == 5258977);
        assert((4423672int * 4423672) % 8380417 == 5258977);
    } else if k == 141 {
        assert(k / 2 == 70 && k % 2 == 1);
        assert(zeta_table(141) == 6084020);
        assert(zeta_table(70) == 5258977);
        assert((6084020int * 6084020) % 8380417 == 3121440);
    } else if k == 142 {
        assert(k / 2 == 71 && k % 2 == 0);
        assert(zeta_table(142) == 5095502);
        assert(zeta_table(71) == 8106357);
        assert((5095502int * 5095502) % 8380417 == 8106357);
    } else if k == 143 {
        assert(k / 2 == 71 && k % 2 == 1);
        assert(zeta_table(143) == 4663471);
        assert(zeta_table(71) == 8106357);
        assert((4663471int * 4663471) % 8380417 == 274060);
    }
}

proof fn lemma_table_square_18(k: int)
    requires
        144 <= k < 152,
    ensures
        canon(zeta_table(k) * zeta_table(k)) == canon(
            if k == 1 {
                -1
            } else if k % 2 == 0 {
                zeta_table(k / 2)
            } else {
                -zeta_table(k / 2)
            },
        ),
{
    if k == 144 {
        assert(k / 2 == 72 && k % 2 == 0);
        assert(zeta_table(144) == 8352605);
        assert(zeta_table(72) == 2508980);
        assert((8352605int * 8352605) % 8380417 == 2508980);
    } else if k == 145 {
        assert(k / 2 == 72 && k % 2 == 1);
        assert(zeta_table(145) == 822541);
        assert(zeta_table(72) == 2508980);
        assert((822541int * 822541) % 8380417 == 5871437);
    } else if k == 146 {
        assert(k / 2 == 73 && k % 2 == 0);
        assert(zeta_table(146) == 1009365);
        assert(zeta_table(73) == 2028118);
        assert((1009365int * 1009365) % 8380417 == 2028118);
    } else if k == 147 {
        assert(k / 2 == 73 && k % 2 == 1);
        assert(zeta_table(147) == 5926272);
        assert(zeta_table(73) == 2028118);
        assert((5926272int * 5926272) % 8380417 == 6352299);
    } else if k == 148 {
        assert(k / 2 == 74 && k % 2 == 0);
        assert(zeta_table(148) == 6400920);
        assert(zeta_table(74) == 1937570);
        assert((6400920int * 6400920) % 8380417 == 1937570);
    } else if k == 149 {
        assert(k / 2 == 74 && k % 2 == 1);
        assert(zeta_table(149) == 1596822);
        assert(zeta_table(74) == 1937570);
        assert((1596822int * 1596822) % 8380417 == 6442847);
    } else if k == 150 {
        assert(k / 2 == 75 && k % 2 == 0);
        assert(zeta_table(150) == 4423473);
        assert(zeta_table(75) == 4564692);
        assert((4423473int * 4423473) % 8380417 == 4564692);
    } else if k == 151 {
        assert(k / 2 == 75 && k % 2 == 1);
        assert(zeta_table(151) == 4620952);
        assert(zeta_table(75) == 4564692);
        assert((4620952int * 4620952) % 8380417 == 3815725);
    }
}

proof fn lemma_table_square_19(k: int)
    requires
        152 <= k < 160,
    ensures
        canon(zeta_table(k) * zeta_table(k)) == canon(
            if k == 1 {
                -1
            } else if k % 2 == 0 {
                zeta_table(k / 2)
            } else {
                -zeta_table(k / 2)
            },
        ),
{
    if k == 152 {
        assert(k / 2 == 76 && k % 2 == 0);
        assert(zeta_table(152) == 6695264);
        assert(zeta_table(76) == 2811291);
        assert((6695264int * 6695264) % 8380417 == 2811291);
    } else if k == 153 {
        assert(k / 2 == 76 && k % 2 == 1);
        assert(zeta_table(153) == 4969849);
        assert(zeta_table(76) == 2811291);
        assert((4969849int * 4969849) % 8380417 == 5569126);
    } else if k == 154 {
        assert(k / 2 == 77 && k % 2 == 0);
        assert(zeta_table(154) == 2678278);
        assert(zeta_table(77) == 5396636);
        assert((2678278int * 2678278) % 8380417 == 5396636);
    } else if k == 155 {
        assert(k / 2 == 77 && k % 2 == 1);
        assert(zeta_table(155) == 4611469);
        assert(zeta_table(77) == 5396636);
        assert((4611469int * 4611469) % 8380417 == 2983781);
    } else if k == 156 {
        assert(k / 2 == 78 && k % 2 == 0);
        assert(zeta_table(156) == 4829411);
        assert(zeta_table(78) == 7270901);
        assert((4829411int * 4829411) % 8380417 == 7270901);
    } else if k == 157 {
        assert(k / 2 == 78 && k % 2 == 1);
        assert(zeta_table(157) == 635956);
        assert(zeta_table(78) == 7270901);
        assert((635956int * 635956) % 8380417 == 1109516);
    } else if k == 158 {
        assert(k / 2 == 79 && k % 2 == 0);
        assert(zeta_table(158) == 8129971);
        assert(zeta_table(79) == 4158088);
        assert((8129971int * 8129971) % 8380417 == 4158088);
    } else if k == 159 {
        assert(k / 2 == 79 && k % 2 == 1);
        assert(zeta_table(159) == 5925040);
        assert(zeta_table(79) == 4158088);
        assert((5925040int * 5925040) % 8380417 == 4222329);
    }
}

proof fn lemma_table_square_20(k: int)
    requires
        160 <= k < 168,
    ensures
        canon(zeta_table(k) * zeta_table(k)) == canon(
            if k == 1 {
                -1
            } else if k % 2 == 0 {
                zeta_table(k / 2)
            } else {
                -zeta_table(k / 2)
            },
        ),
{
    if k == 160 {
        assert(k / 2 == 80 && k % 2 == 0);
        assert(zeta_table(160) == 4234153);
        assert(zeta_table(80) == 1528066);
        assert((4234153int * 4234153) % 8380417 == 1528066);
    } else if k == 161 {
        assert(k / 2 == 80 && k % 2 == 1);
        assert(zeta_table(161) == 6607829);
        assert(zeta_table(80) == 1528066);
        assert((6607829int * 6607829) % 8380417 == 6852351);
    } else if k == 162 {
        assert(k / 2 == 81 && k % 2 == 0);
        assert(zeta_table(162) == 2192938);
        assert(zeta_table(81) == 482649);
        assert((2192938int * 2192938) % 8380417 == 482649);
    } else if k == 163 {
        assert(k / 2 == 81 && k % 2 == 1);
        assert(zeta_table(163) == 6653329);
        assert(zeta_table(81) == 482649);
        assert((6653329int * 6653329) % 8380417 == 7897768);
    } else if k == 164 {
        assert(k / 2 == 82 && k % 2 == 0);
        assert(zeta_table(164) == 2387513);
        assert(zeta_table(82) == 1148858);
        assert((2387513int * 2387513) % 8380417 == 1148858);
    } else if k == 165 {
        assert(k / 2 == 82 && k % 2 == 1);
        assert(zeta_table(165) == 4768667);
        assert(zeta_table(82) == 1148858);
        assert((4768667int * 4768667) % 8380417 == 7231559);
    } else if k == 166 {
        assert(k / 2 == 83 && k % 2 == 0);
        assert(zeta_table(166) == 8111961);
        assert(zeta_table(83) == 5418153);
        assert((8111961int * 8111961) % 8380417 == 5418153);
    } else if k == 167 {
        assert(k / 2 == 83 && k % 2 == 1);
        assert(zeta_table(167) == 5199961);
        assert(zeta_table(83) == 5418153);
        assert((5199961int * 5199961) % 8380417 == 2962264);
    }
}

proof fn lemma_table_square_21(k: int)
    requires
        168 <= k < 176,
    ensures
        canon(zeta_table(k) * zeta_table(k)) == canon(
            if k == 1 {
                -1
            } else if k % 2 == 0 {
                zeta_table(k / 2)
            } else {
                -zeta_table(k / 2)
            },
        ),
{
    if k == 168 {
        assert(k / 2 == 84 && k % 2 == 0);
        assert(zeta_table(168) == 3747250);
        assert(zeta_table(84) == 7814814);
        assert((3747250int * 3747250) % 8380417 == 7814814);
    } else if k == 169 {
        assert(k / 2 == 84 && k % 2 == 1);
        assert(zeta_table(169) == 2296099);
        assert(zeta_table(84) == 7814814);
        assert((2296099int * 2296099) % 8380417 == 565603);
    } else if k == 170 {
        assert(k / 2 == 85 && k % 2 == 0);
        assert(zeta_table(170) == 1239911);
        assert(zeta_table(85) == 169688);
        assert((1239911int * 1239911) % 8380417 == 169688);
    } else if k == 171 {
        assert(k / 2 == 85 && k % 2 == 1);
        assert(zeta_table(171) == 4541938);
        assert(zeta_table(85) == 169688);
        assert((4541938int * 4541938) % 8380417 == 8210729);
    } else if k == 172 {
        assert(k / 2 == 86 && k % 2 == 0);
        assert(zeta_table(172) == 3195676);
        assert(zeta_table(86) == 2462444);
        assert((3195676int * 3195676) % 8380417 == 2462444);
    } else if k == 173 {
        assert(k / 2 == 86 && k % 2 == 1);
        assert(zeta_table(173) == 2642980);
        assert(zeta_table(86) == 2462444);
        assert((2642980int * 2642980) % 8380417 == 5917973);
    } else if k == 174 {
        assert(k / 2 == 87 && k % 2 == 0);
        assert(zeta_table(174) == 1254190);
        assert(zeta_table(87) == 5046034);
        assert((1254190int * 1254190) % 8380417 == 5046034);
    } else if k == 175 {
        assert(k / 2 == 87 && k % 2 == 1);
        assert(zeta_table(175) == 8368000);
        assert(zeta_table(87) == 5046034);
        assert((8368000int * 8368000) % 8380417 == 3334383);
    }
}

proof fn lemma_table_square_22(k: int)
    requires
        176 <= k < 184,
    ensures
        canon(zeta_table(k) * zeta_table(k)) == canon(
            if k == 1 {
                -1
            } else if k % 2 == 0 {
                zeta_table(k / 2)
            } else {
                -zeta_table(k / 2)
            },
        ),
{
    if k == 176 {
        assert(k / 2 == 88 && k % 2 == 0);
        assert(zeta_table(176) == 2998219);
        assert(zeta_table(88) == 4213992);
        assert((2998219int * 2998219) % 8380417 == 4213992);
    } else if k == 177 {
        assert(k / 2 == 88 && k % 2 == 1);
        assert(zeta_table(177) == 141835);
        assert(zeta_table(88) == 4213992);
        assert((141835int * 141835) % 8380417 == 4166425);
    } else if k == 178 {
        assert(k / 2 == 89 && k % 2 == 0);
        assert(zeta_table(178) == 8291116);
        assert(zeta_table(89) == 4892034);
        assert((8291116int * 8291116) % 8380417 == 4892034);
    } else if k == 179 {
        assert(k / 2 == 89 && k % 2 == 1);
        assert(zeta_table(179) == 2513018);
        assert(zeta_table(89) == 4892034);
        assert((2513018int * 2513018) % 8380417 == 3488383);
    } else if k == 180 {
        assert(k / 2 == 90 && k % 2 == 0);
        assert(zeta_table(180) == 7025525);
        assert(zeta_table(90) == 1987814);
        assert((7025525int * 7025525) % 8380417 == 1987814);
    } else if k == 181 {
        assert(k / 2 == 90 && k % 2 == 1);
        assert(zeta_table(181) == 613238);
        assert(zeta_table(90) == 1987814);
        assert((613238int * 613238) % 8380417 == 6392603);
    } else if k == 182 {
        assert(k / 2 == 91 && k % 2 == 0);
        assert(zeta_table(182) == 7070156);
        assert(zeta_table(91) == 5183169);
        assert((7070156int * 7070156) % 8380417 == 5183169);
    } else if k == 183 {
        assert(k / 2 == 91 && k % 2 == 1);
        assert(zeta_table(183) == 6161950);
        assert(zeta_table(91) == 5183169);
        assert((6161950int * 6161950) % 8380417 == 3197248);
    }
}

proof fn lemma_table_square_23(k: int)
    requires
        184 <= k < 192,
    ensures
        canon(zeta_table(k) * zeta_table(k)) == canon(
            if k == 1 {
                -1
            } else if k % 2 == 0 {
                zeta_table(k / 2)
            } else {
                -zeta_table(k / 2)
            },
        ),
{
    if k == 184 {
        assert(k / 2 == 92 && k % 2 == 0);
        assert(zeta_table(184) == 7921677);
        assert(zeta_table(92) == 1736313);
        assert((7921677int * 7921677) % 8380417 == 1736313);
    } else if k == 185 {
        assert(k / 2 == 92 && k % 2 == 1);
        assert(zeta_table(185) == 6458423);
        assert(zeta_table(92) == 1736313);
        assert((6458423int * 6458423) % 8380417 == 6644104);
    } else if k == 186 {
        assert(k / 2 == 93 && k % 2 == 0);
        assert(zeta_table(186) == 4040196);
        assert(zeta_table(93) == 235407);
        assert((4040196int * 4040196) % 8380417 == 235407);
    } else if k == 187 {
        assert(k / 2 == 93 && k % 2 == 1);
        assert(zeta_table(187) == 4908348);
        assert(zeta_table(93) == 235407);
        assert((4908348int * 4908348) % 8380417 == 8145010);
    } else if k == 188 {
        assert(k / 2 == 94 && k % 2 == 0);
        assert(zeta_table(188) == 2039144);
        assert(zeta_table(94) == 5130263);
        assert((2039144int * 2039144) % 8380417 == 5130263);
    } else if k == 189 {
        assert(k / 2 == 94 && k % 2 == 1);
        assert(zeta_table(189) == 6500539);
        assert(zeta_table(94) == 5130263);
        assert((6500539int * 6500539) % 8380417 == 3250154);
    } else if k == 190 {
        assert(k / 2 == 95 && k % 2 == 0);
        assert(zeta_table(190) == 7561656);
        assert(zeta_table(95) == 3258457);
        assert((7561656int * 7561656) % 8380417 == 3258457);
    } else if k == 191 {
        assert(k / 2 == 95 && k % 2 == 1);
        assert(zeta_table(191) == 6201452);
        assert(zeta_table(95) == 3258457);
        assert((6201452int * 6201452) % 8380417 == 5121960);
    }
}

proof fn lemma_table_square_24(k: int)
    requires
        192 <= k < 200,
    ensures
        canon(zeta_table(k) * zeta_table(k)) == canon(
            if k == 1 {
                -1
            } else if k % 2 == 0 {
                zeta_table(k / 2)
            } else {
                -zeta_table(k / 2)
            },
        ),
{
    if k == 192 {
        assert(k / 2 == 96 && k % 2 == 0);
        assert(zeta_table(192) == 6757063);
        assert(zeta_table(96) == 5801164);
        assert((6757063int * 6757063) % 8380417 == 5801164);
    } else if k == 193 {
        assert(k / 2 == 96 && k % 2 == 1);
        assert(zeta_table(193) == 2105286);
        assert(zeta_table(96) == 5801164);
        assert((2105286int * 2105286) % 8380417 == 2579253);
    } else if k == 194 {
        assert(k / 2 == 97 && k % 2 == 0);
        assert(zeta_table(194) == 6006015);
        assert(zeta_table(97) == 1787943);
        assert((6006015int * 6006015) % 8380417 == 1787943);
    } else if k == 195 {
        assert(k / 2 == 97 && k % 2 == 1);
        assert(zeta_table(195) == 6346610);
        assert(zeta_table(97) == 1787943);
        assert((6346610int * 6346610) % 8380417 == 6592474);
    } else if k == 196 {
        assert(k / 2 == 98 && k % 2 == 0);
        assert(zeta_table(196) == 586241);
        assert(zeta_table(98) == 5989328);
        assert((586241int * 586241) % 8380417 == 5989328);
    } else if k == 197 {
        assert(k / 2 == 98 && k % 2 == 1);
        assert(zeta_table(197) == 7200804);
        assert(zeta_table(98) == 5989328);
        assert((7200804int * 7200804) % 8380417 == 2391089);
    } else if k == 198 {
        assert(k / 2 == 99 && k % 2 == 0);
        assert(zeta_table(198) == 527981);
        assert(zeta_table(99) == 6125690);
        assert((527981int * 527981) % 8380417 == 6125690);
    } else if k == 199 {
        assert(k / 2 == 99 && k % 2 == 1);
        assert(zeta_table(199) == 5637006);
        assert(zeta_table(99) == 6125690);
        assert((5637006int * 5637006) % 8380417 == 2254727);
    }
}

proof fn lemma_table_square_25(k: int)
    requires
        200 <= k < 208,
    ensures
        canon(zeta_table(k) * zeta_table(k)) == canon(
            if k == 1 {
                -1
            } else if k % 2 == 0 {
                zeta_table(k / 2)
            } else {
                -zeta_table(k / 2)
            },
        ),
{
    if k == 200 {
        assert(k / 2 == 100 && k % 2 == 0);
        assert(zeta_table(200) == 6903432);
        assert(zeta_table(100) == 3482206);
        assert((6903432int * 6903432) % 8380417 == 3482206);
    } else if k == 201 {
        assert(k / 2 == 100 && k % 2 == 1);
        assert(zeta_table(201) == 1994046);
        assert(zeta_table(100) == 3482206);
        assert((1994046int * 1994046) % 8380417 == 4898211);
    } else if k == 202 {
        assert(k / 2 == 101 && k % 2 == 0);
        assert(zeta_table(202) == 2491325);
        assert(zeta_table(101) == 4197502);
        assert((2491325int * 2491325) % 8380417 == 4197502);
    } else if k == 203 {
        assert(k / 2 == 101 && k % 2 == 1);
        assert(zeta_table(203) == 6987258);
        assert(zeta_table(101) == 4197502);
        assert((6987258int * 6987258) % 8380417 == 4182915);
    } else if k == 204 {
        assert(k / 2 == 102 && k % 2 == 0);
        assert(zeta_table(204) == 507927);
        assert(zeta_table(102) == 7080401);
        assert((507927int * 507927) % 8380417 == 7080401);
    } else if k == 205 {
        assert(k / 2 == 102 && k % 2 == 1);
        assert(zeta_table(205) == 7192532);
        assert(zeta_table(102) == 7080401);
        assert((7192532int * 7192532) % 8380417 == 1300016);
    } else if k == 206 {
        assert(k / 2 == 103 && k % 2 == 0);
        assert(zeta_table(206) == 7655613);
        assert(zeta_table(103) == 6018354);
        assert((7655613int * 7655613) % 8380417 == 6018354);
    } else if k == 207 {
        assert(k / 2 == 103 && k % 2 == 1);
        assert(zeta_table(207) == 6545891);
        assert(zeta_table(103) == 6018354);
        assert((6545891int * 6545891) % 8380417 == 2362063);
    }
}

proof fn lemma_table_square_26(k: int)
    requires
        208 <= k < 216,
    ensures
        canon(zeta_table(k) * zeta_table(k)) == canon(
            if k == 1 {
                -1
            } else if k % 2 == 0 {
                zeta_table(k / 2)
            } else {
                -zeta_table(k / 2)
            },
        ),
{
    if k == 208 {
        assert(k / 2 == 104 && k % 2 == 0);
        assert(zeta_table(208) == 5346675);
        assert(zeta_table(104) == 7062739);
        assert((5346675int * 5346675) % 8380417 == 7062739);
    } else if k == 209 {
        assert(k / 2 == 104 && k % 2 == 1);
        assert(zeta_table(209) == 8041997);
        assert(zeta_table(104) == 7062739);
        assert((8041997int * 8041997) % 8380417 == 1317678);
    } else if k == 210 {
        assert(k / 2 == 105 && k % 2 == 0);
        assert(zeta_table(210) == 2647994);
        assert(zeta_table(105) == 2461387);
        assert((2647994int * 2647994) % 8380417 == 2461387);
    } else if k == 211 {
        assert(k / 2 == 105 && k % 2 == 1);
        assert(zeta_table(211) == 3009748);
        assert(zeta_table(105) == 2461387);
        assert((3009748int * 3009748) % 8380417 == 5919030);
    } else if k == 212 {
        assert(k / 2 == 106 && k % 2 == 0);
        assert(zeta_table(212) == 5767564);
        assert(zeta_table(106) == 3035980);
        assert((5767564int * 5767564) % 8380417 == 3035980);
    } else if k == 213 {
        assert(k / 2 == 106 && k % 2 == 1);
        assert(zeta_table(213) == 4148469);
        assert(zeta_table(106) == 3035980);
        assert((4148469int * 4148469) % 8380417 == 5344437);
    } else if k == 214 {
        assert(k / 2 == 107 && k % 2 == 0);
        assert(zeta_table(214) == 749577);
        assert(zeta_table(107) == 621164);
        assert((749577int * 749577) % 8380417 == 621164);
    } else if k == 215 {
        assert(k / 2 == 107 && k % 2 == 1);
        assert(zeta_table(215) == 4357667);
        assert(zeta_table(107) == 621164);
        assert((4357667int * 4357667) % 8380417 == 7759253);
    }
}

proof fn lemma_table_square_27(k: int)
    requires
        216 <= k < 224,
    ensures
        canon(zeta_table(k) * zeta_table(k)) == canon(
            if k == 1 {
                -1
            } else if k % 2 == 0 {
                zeta_table(k / 2)
            } else {
                -zeta_table(k / 2)
            },
        ),
{
    if k == 216 {
        assert(k / 2 == 108 && k % 2 == 0);
        assert(zeta_table(216) == 3980599);
        assert(zeta_table(108) == 3901472);
        assert((3980599int * 3980599) % 8380417 == 3901472);
    } else if k == 217 {
        assert(k / 2 == 108 && k % 2 == 1);
        assert(zeta_table(217) == 2569011);
        assert(zeta_table(108) == 3901472);
        assert((2569011int * 2569011) % 8380417 == 4478945);
    } else if k == 218 {
        assert(k / 2 == 109 && k % 2 == 0);
        assert(zeta_table(218) == 6764887);
        assert(zeta_table(109) == 7153756);
        assert((6764887int * 6764887) % 8380417 == 7153756);
    } else if k == 219 {
        assert(k / 2 == 109 && k % 2 == 1);
        assert(zeta_table(219) == 1723229);
        assert(zeta_table(109) == 7153756);
        assert((1723229int * 1723229) % 8380417 == 1226661);
    } else if k == 220 {
        assert(k / 2 == 110 && k % 2 == 0);
        assert(zeta_table(220) == 1665318);
        assert(zeta_table(110) == 2925816);
        assert((1665318int * 1665318) % 8380417 == 2925816);
    } else if k == 221 {
        assert(k / 2 == 110 && k % 2 == 1);
        assert(zeta_table(221) == 2028038);
        assert(zeta_table(110) == 2925816);
        assert((2028038int * 2028038) % 8380417 == 5454601);
    } else if k == 222 {
        assert(k / 2 == 111 && k % 2 == 0);
        assert(zeta_table(222) == 1163598);
        assert(zeta_table(111) == 3374250);
        assert((1163598int * 1163598) % 8380417 == 3374250);
    } else if k == 223 {
        assert(k / 2 == 111 && k % 2 == 1);
        assert(zeta_table(223) == 5011144);
        assert(zeta_table(111) == 3374250);
        assert((5011144int * 5011144) % 8380417 == 5006167);
    }
}

proof fn lemma_table_square_28(k: int)
    requires
        224 <= k < 232,
    ensures
        canon(zeta_table(k) * zeta_table(k)) == canon(
            if k == 1 {
                -1
            } else if k % 2 == 0 {
                zeta_table(k / 2)
            } else {
                -zeta_table(k / 2)
            },
        ),
{
    if k == 224 {
        assert(k / 2 == 112 && k % 2 == 0);
        assert(zeta_table(224) == 3994671);
        assert(zeta_table(112) == 1356448);
        assert((3994671int * 3994671) % 8380417 == 1356448);
    } else if k == 225 {
        assert(k / 2 == 112 && k % 2 == 1);
        assert(zeta_table(225) == 8368538);
        assert(zeta_table(112) == 1356448);
        assert((8368538int * 8368538) % 8380417 == 7023969);
    } else if k == 226 {
        assert(k / 2 == 113 && k % 2 == 0);
        assert(zeta_table(226) == 7009900);
        assert(zeta_table(113) == 5604662);
        assert((7009900int * 7009900) % 8380417 == 5604662);
    } else if k == 227 {
        assert(k / 2 == 113 && k % 2 == 1);
        assert(zeta_table(227) == 3020393);
        assert(zeta_table(113) == 5604662);
        assert((3020393int * 3020393) % 8380417 == 2775755);
    } else if k == 228 {
        assert(k / 2 == 114 && k % 2 == 0);
        assert(zeta_table(228) == 3363542);
        assert(zeta_table(114) == 2683270);
        assert((3363542int * 3363542) % 8380417 == 2683270);
    } else if k == 229 {
        assert(k / 2 == 114 && k % 2 == 1);
        assert(zeta_table(229) == 214880);
        assert(zeta_table(114) == 2683270);
        assert((214880int * 214880) % 8380417 == 5697147);
    } else if k == 230 {
        assert(k / 2 == 115 && k % 2 == 0);
        assert(zeta_table(230) == 545376);
        assert(zeta_table(115) == 5601629);
        assert((545376int * 545376) % 8380417 == 5601629);
    } else if k == 231 {
        assert(k / 2 == 115 && k % 2 == 1);
        assert(zeta_table(231) == 7609976);
        assert(zeta_table(115) == 5601629);
        assert((7609976int * 7609976) % 8380417 == 2778788);
    }
}

proof fn lemma_table_square_29(k: int)
    requires
        232 <= k < 240,
    ensures
        canon(zeta_table(k) * zeta_table(k)) == canon(
            if k == 1 {
                -1
            } else if k % 2 == 0 {
                zeta_table(k / 2)
            } else {
                -zeta_table(k / 2)
            },
        ),
{
    if k == 232 {
        assert(k / 2 == 116 && k % 2 == 0);
        assert(zeta_table(232) == 3105558);
        assert(zeta_table(116) == 4912752);
        assert((3105558int * 3105558) % 8380417 == 4912752);
    } else if k == 233 {
        assert(k / 2 == 116 && k % 2 == 1);
        assert(zeta_table(233) == 7277073);
        assert(zeta_table(116) == 4912752);
        assert((7277073int * 7277073) % 8380417 == 3467665);
    } else if k == 234 {
        assert(k / 2 == 117 && k % 2 == 0);
        assert(zeta_table(234) == 508145);
        assert(zeta_table(117) == 2312838);
        assert((508145int * 508145) % 8380417 == 2312838);
    } else if k == 235 {
        assert(k / 2 == 117 && k % 2 == 1);
        assert(zeta_table(235) == 7826699);
        assert(zeta_table(117) == 2312838);
        assert((7826699int * 7826699) % 8380417 == 6067579);
    } else if k == 236 {
        assert(k / 2 == 118 && k % 2 == 0);
        assert(zeta_table(236) == 860144);
        assert(zeta_table(118) == 7727142);
        assert((860144int * 860144) % 8380417 == 7727142);
    } else if k == 237 {
        assert(k / 2 == 118 && k % 2 == 1);
        assert(zeta_table(237) == 3430436);
        assert(zeta_table(118) == 7727142);
        assert((3430436int * 3430436) % 8380417 == 653275);
    } else if k == 238 {
        assert(k / 2 == 119 && k % 2 == 0);
        assert(zeta_table(238) == 140244);
        assert(zeta_table(119) == 7921254);
        assert((140244int * 140244) % 8380417 == 7921254);
    } else if k == 239 {
        assert(k / 2 == 119 && k % 2 == 1);
        assert(zeta_table(239) == 6866265);
        assert(zeta_table(119) == 7921254);
        assert((6866265int * 6866265) % 8380417 == 459163);
    }
}

proof fn lemma_table_square_30(k: int)
    requires
        240 <= k < 248,
    ensures
        canon(zeta_table(k) * zeta_table(k)) == canon(
            if k == 1 {
                -1
            } else if k % 2 == 0 {
                zeta_table(k / 2)
            } else {
                -zeta_table(k / 2)
            },
        ),
{
    if k == 240 {
        assert(k / 2 == 120 && k % 2 == 0);
        assert(zeta_table(240) == 6195333);
        assert(zeta_table(120) == 348812);
        assert((6195333int * 6195333) % 8380417 == 348812);
    } else if k == 241 {
        assert(k / 2 == 120 && k % 2 == 1);
        assert(zeta_table(241) == 3123762);
        assert(zeta_table(120) == 348812);
        assert((3123762int * 3123762) % 8380417 == 8031605);
    } else if k == 242 {
        assert(k / 2 == 121 && k % 2 == 0);
        assert(zeta_table(242) == 2358373);
        assert(zeta_table(121) == 8052569);
        assert((2358373int * 2358373) % 8380417 == 8052569);
    } else if k == 243 {
        assert(k / 2 == 121 && k % 2 == 1);
        assert(zeta_table(243) == 6187330);
        assert(zeta_table(121) == 8052569);
        assert((6187330int * 6187330) % 8380417 == 327848);
    } else if k == 244 {
        assert(k / 2 == 122 && k % 2 == 0);
        assert(zeta_table(244) == 5365997);
        assert(zeta_table(122) == 1011223);
        assert((5365997int * 5365997) % 8380417 == 1011223);
    } else if k == 245 {
        assert(k / 2 == 122 && k % 2 == 1);
        assert(zeta_table(245) == 6663603);
        assert(zeta_table(122) == 1011223);
        assert((6663603int * 6663603) % 8380417 == 7369194);
    } else if k == 246 {
        assert(k / 2 == 123 && k % 2 == 0);
        assert(zeta_table(246) == 2926054);
        assert(zeta_table(123) == 6026202);
        assert((2926054int * 2926054) % 8380417 == 6026202);
    } else if k == 247 {
        assert(k / 2 == 123 && k % 2 == 1);
        assert(zeta_table(247) == 7987710);
        assert(zeta_table(123) == 6026202);
        assert((7987710int * 7987710) % 8380417 == 2354215);
    }
}

proof fn lemma_table_square_31(k: int)
    requires
        248 <= k < 256,
    ensures
        canon(zeta_table(k) * zeta_table(k)) == canon(
            if k == 1 {
                -1
            } else if k % 2 == 0 {
                zeta_table(k / 2)
            } else {
                -zeta_table(k / 2)
            },
        ),
{
    if k == 248 {
        assert(k / 2 == 124 && k % 2 == 0);
        assert(zeta_table(248) == 8077412);
        assert(zeta_table(124) == 4561790);
        assert((8077412int * 8077412) % 8380417 == 4561790);
    } else if k == 249 {
        assert(k / 2 == 124 && k % 2 == 1);
        assert(zeta_table(249) == 3531229);
        assert(zeta_table(124) == 4561790);
        assert((3531229int * 3531229) % 8380417 == 3818627);
    } else if k == 250 {
        assert(k / 2 == 125 && k % 2 == 0);
        assert(zeta_table(250) == 4405932);
        assert(zeta_table(125) == 6458164);
        assert((4405932int * 4405932) % 8380417 == 6458164);
    } else if k == 251 {
        assert(k / 2 == 125 && k % 2 == 1);
        assert(zeta_table(251) == 4606686);
        assert(zeta_table(125) == 6458164);
        assert((4606686int * 4606686) % 8380417 == 1922253);
    } else if k == 252 {
        assert(k / 2 == 126 && k % 2 == 0);
        assert(zeta_table(252) == 1900052);
        assert(zeta_table(126) == 6143691);
        assert((1900052int * 1900052) % 8380417 == 6143691);
    } else if k == 253 {
        assert(k / 2 == 126 && k % 2 == 1);
        assert(zeta_table(253) == 7598542);
        assert(zeta_table(126) == 6143691);
        assert((7598542int * 7598542) % 8380417 == 2236726);
    } else if k == 254 {
        assert(k / 2 == 127 && k % 2 == 0);
        assert(zeta_table(254) == 1054478);
        assert(zeta_table(127) == 1744507);
        assert((1054478int * 1054478) % 8380417 == 1744507);
    } else if k == 255 {
        assert(k / 2 == 127 && k % 2 == 1);
        assert(zeta_table(255) == 7648983);
        assert(zeta_table(127) == 1744507);
        assert((7648983int * 7648983) % 8380417 == 6635910);
    }
}

/// The square of an entry of the table is the entry above it, up to the
/// sign; the square of the first entry is -1.
pub proof fn lemma_table_square(k: int)
    requires
        1 <= k < 256,
    ensures
        canon(zeta_table(k) * zeta_table(k)) == canon(
            if k == 1 {
                -1
            } else if k % 2 == 0 {
                zeta_table(k / 2)
            } else {
                -zeta_table(k / 2)
            },
        ),
{
    if k < 8 {
        lemma_table_square_0(k);
    } else if k < 16 {
        lemma_table_square_1(k);
    } else if k < 24 {
        lemma_table_square_2(k);
    } else if k < 32 {
        lemma_table_square_3(k);
    } else if k < 40 {
        lemma_table_square_4(k);
    } else if k < 48 {
        lemma_table_square_5(k);
    } else if k < 56 {
        lemma_table_square_6(k);
    } else if k < 64 {
        lemma_table_square_7(k);
    } else if k < 72 {
        lemma_table_square_8(k);
    } else if k < 80 {
        lemma_table_square_9(k);
    } else if k < 88 {
        lemma_table_square_10(k);
    } else if k < 96 {
        lemma_table_square_11(k);
    } else if k < 104 {
        lemma_table_square_12(k);
    } else if k < 112 {
        lemma_table_square_13(k);
    } else if k < 120 {
        lemma_table_square_14(k);
    } else if k < 128 {
        lemma_table_square_15(k);
    } else if k < 136 {
        lemma_table_square_16(k);
    } else if k < 144 {
        lemma_table_square_17(k);
    } else if k < 152 {
        lemma_table_square_18(k);
    } else if k < 160 {
        lemma_table_square_19(k);
    } else if k < 168 {
        lemma_table_square_20(k);
    } else if k < 176 {
        lemma_table_square_21(k);
    } else if k < 184 {
        lemma_table_square_22(k);
    } else if k < 192 {
        lemma_table_square_23(k);
    } else if k < 200 {
        lemma_table_square_24(k);
    } else if k < 208 {
        lemma_table_square_25(k);
    } else if k < 216 {
        lemma_table_square_26(k);
    } else if k < 224 {
        lemma_table_square_27(k);
    } else if k < 232 {
        lemma_table_square_28(k);
    } else if k < 240 {
        lemma_table_square_29(k);
    } else if k < 248 {
        lemma_table_square_30(k);
    } else if k < 256 {
        lemma_table_square_31(k);
    }
}

/// The power `1753^e` modulo `q`. The number 1753 is a root of unity of
/// order 512 modulo `q`.
#[verifier::opaque]
pub open spec fn root_power(e: nat) -> int
    decreases e,
{
    if e == 0 {
        1
    } else {
        canon(1753 * root_power((e - 1) as nat))
    }
}

/// The number whose eight bits are the bits of `k` in reverse order.
pub open spec fn bit_reversed(k: int) -> int {
    (k % 2) * 128 + (k / 2 % 2) * 64 + (k / 4 % 2) * 32 + (k / 8 % 2) * 16 + (k / 16 % 2) * 8 + (k
        / 32 % 2) * 4 + (k / 64 % 2) * 2 + (k / 128 % 2)
}

/// A power of the root is 1753 times the power before it.
proof fn lemma_root_step(e: nat)
    ensures
        root_power(e) == if e == 0 {
            1
        } else {
            canon(1753 * root_power((e - 1) as nat))
        },
{
    reveal(root_power);
}

proof fn lemma_root_powers_0()
    ensures
        root_power(0) == 1,
        root_power(1) == 1753,
        root_power(2) == 3073009,
        root_power(3) == 6757063,
        root_power(4) == 3602218,
        root_power(5) == 4234153,
        root_power(6) == 5801164,
        root_power(7) == 3994671,
        root_power(8) == 5010068,
        root_power(9) == 8352605,
        root_power(10) == 1528066,
        root_power(11) == 5346675,
        root_power(12) == 3415069,
        root_power(13) == 2998219,
        root_power(14) == 1356448,
        root_power(15) == 6195333,
{
    lemma_root_step(0);
    assert(root_power(0) == 1);
    lemma_root_step(1);
    assert((1753int * 1) % 8380417 == 1753);
    assert(root_power(1) == 1753);
    lemma_root_step(2);
    assert((1753int * 1753) % 8380417 == 3073009);
    assert(root_power(2) == 3073009);
    lemma_root_step(3);
    assert((1753int * 3073009) % 8380417 == 6757063);
    assert(root_power(3) == 6757063);
    lemma_root_step(4);
    assert((1753int * 6757063) % 8380417 == 3602218);
    assert(root_power(4) == 3602218);
    lemma_root_step(5);
    assert((1753int * 3602218) % 8380417 == 4234153);
    assert(root_power(5) == 4234153);
    lemma_root_step(6);
    assert((1753int * 4234153) % 8380417 == 5801164);
    assert(root_power(6) == 5801164);
    lemma_root_step(7);
    assert((1753int * 5801164) % 8380417 == 3994671);
    assert(root_power(7) == 3994671);
    lemma_root_step(8);
    assert((1753int * 3994671) % 8380417 == 5010068);
    assert(root_power(8) == 5010068);
    lemma_root_step(9);
    assert((1753int * 5010068) % 8380417 == 8352605);
    assert(root_power(9) == 8352605);
    lemma_root_step(10);
    assert((1753int * 8352605) % 8380417 == 1528066);
    assert(root_power(10) == 1528066);
    lemma_root_step(11);
    assert((1753int * 1528066) % 8380417 == 5346675);
    assert(root_power(11) == 5346675);
    lemma_root_step(12);
    assert((1753int * 5346675) % 8380417 == 3415069);
    assert(root_power(12) == 3415069);
    lemma_root_step(13);
    assert((1753int * 3415069) % 8380417 == 2998219);
    assert(root_power(13) == 2998219);
    lemma_root_step(14);
    assert((1753int * 2998219) % 8380417 == 1356448);
    assert(root_power(14) == 1356448);
    lemma_root_step(15);
    assert((1753int * 1356448) % 8380417 == 6195333);
    assert(root_power(15) == 6195333);
}

proof fn lemma_root_powers_1()
    ensures
        root_power(16) == 7778734,
        root_power(17) == 1182243,
        root_power(18) == 2508980,
        root_power(19) == 6903432,
        root_power(20) == 394148,
        root_power(21) == 3747250,
        root_power(22) == 7062739,
        root_power(23) == 3105558,
        root_power(24) == 5152541,
        root_power(25) == 6695264,
        root_power(26) == 4213992,
        root_power(27) == 3980599,
        root_power(28) == 5483103,
        root_power(29) == 7921677,
        root_power(30) == 348812,
        root_power(31) == 8077412,
{
    lemma_root_powers_0();
    lemma_root_step(16);
    assert((1753int * 6195333) % 8380417 == 7778734);
    assert(root_power(16) == 7778734);
    lemma_root_step(17);
    assert((1753int * 7778734) % 8380417 == 1182243);
    assert(root_power(17) == 1182243);
    lemma_root_step(18);
    assert((1753int * 1182243) % 8380417 == 2508980);
    assert(root_power(18) == 2508980);
    lemma_root_step(19);
    assert((1753int * 2508980) % 8380417 == 6903432);
    assert(root_power(19) == 6903432);
    lemma_root_step(20);
    assert((1753int * 6903432) % 8380417 == 394148);
    assert(root_power(20) == 394148);
    lemma_root_step(21);
    assert((1753int * 394148) % 8380417 == 3747250);
    assert(root_power(21) == 3747250);
    lemma_root_step(22);
    assert((1753int * 3747250) % 8380417 == 7062739);
    assert(root_power(22) == 7062739);
    lemma_root_step(23);
    assert((1753int * 7062739) % 8380417 == 3105558);
    assert(root_power(23) == 3105558);
    lemma_root_step(24);
    assert((1753int * 3105558) % 8380417 == 5152541);
    assert(root_power(24) == 5152541);
    lemma_root_step(25);
    assert((1753int * 5152541) % 8380417 == 6695264);
    assert(root_power(25) == 6695264);
    lemma_root_step(26);
    assert((1753int * 6695264) % 8380417 == 4213992);
    assert(root_power(26) == 4213992);
    lemma_root_step(27);
    assert((1753int * 4213992) % 8380417 == 3980599);
    assert(root_power(27) == 3980599);
    lemma_root_step(28);
    assert((1753int * 3980599) % 8380417 == 5483103);
    assert(root_power(28) == 5483103);
    lemma_root_step(29);
    assert((1753int * 5483103) % 8380417 == 7921677);
    assert(root_power(29) == 7921677);
    lemma_root_step(30);
    assert((1753int * 7921677) % 8380417 == 348812);
    assert(root_power(30) == 348812);
    lemma_root_step(31);
    assert((1753int * 348812) % 8380417 == 8077412);
    assert(root_power(31) == 8077412);
}

proof fn lemma_root_powers_2()
    ensures
        root_power(32) == 5178923,
        root_power(33) == 2660408,
        root_power(34) == 4183372,
        root_power(35) == 586241,
        root_power(36) == 5269599,
        root_power(37) == 2387513,
        root_power(38) == 3482206,
        root_power(39) == 3363542,
        root_power(40) == 4855975,
        root_power(41) == 6400920,
        root_power(42) == 7814814,
        root_power(43) == 5767564,
        root_power(44) == 3756790,
        root_power(45) == 7025525,
        root_power(46) == 4912752,
        root_power(47) == 5365997,
{
    lemma_root_powers_1();
    lemma_root_step(32);
    assert((1753int * 8077412) % 8380417 == 5178923);
    assert(root_power(32) == 5178923);
    lemma_root_step(33);
    assert((1753int * 5178923) % 8380417 == 2660408);
    assert(root_power(33) == 2660408);
    lemma_root_step(34);
    assert((1753int * 2660408) % 8380417 == 4183372);
    assert(root_power(34) == 4183372);
    lemma_root_step(35);
    assert((1753int * 4183372) % 8380417 == 586241);
    assert(root_power(35) == 586241);
    lemma_root_step(36);
    assert((1753int * 586241) % 8380417 == 5269599);
    assert(root_power(36) == 5269599);
    lemma_root_step(37);
    assert((1753int * 5269599) % 8380417 == 2387513);
    assert(root_power(37) == 2387513);
    lemma_root_step(38);
    assert((1753int * 2387513) % 8380417 == 3482206);
    assert(root_power(38) == 3482206);
    lemma_root_step(39);
    assert((1753int * 3482206) % 8380417 == 3363542);
    assert(root_power(39) == 3363542);
    lemma_root_step(40);
    assert((1753int * 3363542) % 8380417 == 4855975);
    assert(root_power(40) == 4855975);
    lemma_root_step(41);
    assert((1753int * 4855975) % 8380417 == 6400920);
    assert(root_power(41) == 6400920);
    lemma_root_step(42);
    assert((1753int * 6400920) % 8380417 == 7814814);
    assert(root_power(42) == 7814814);
    lemma_root_step(43);
    assert((1753int * 7814814) % 8380417 == 5767564);
    assert(root_power(43) == 5767564);
    lemma_root_step(44);
    assert((1753int * 5767564) % 8380417 == 3756790);
    assert(root_power(44) == 3756790);
    lemma_root_step(45);
    assert((1753int * 3756790) % 8380417 == 7025525);
    assert(root_power(45) == 7025525);
    lemma_root_step(46);
    assert((1753int * 7025525) % 8380417 == 4912752);
    assert(root_power(46) == 4912752);
    lemma_root_step(47);
    assert((1753int * 4912752) % 8380417 == 5365997);
    assert(root_power(47) == 5365997);
}

proof fn lemma_root_powers_3()
    ensures
        root_power(48) == 3764867,
        root_power(49) == 4423672,
        root_power(50) == 2811291,
        root_power(51) == 507927,
        root_power(52) == 2071829,
        root_power(53) == 3195676,
        root_power(54) == 3901472,
        root_power(55) == 860144,
        root_power(56) == 7737789,
        root_power(57) == 4829411,
        root_power(58) == 1736313,
        root_power(59) == 1665318,
        root_power(60) == 2917338,
        root_power(61) == 2039144,
        root_power(62) == 4561790,
        root_power(63) == 1900052,
{
    lemma_root_powers_2();
    lemma_root_step(48);
    assert((1753int * 5365997) % 8380417 == 3764867);
    assert(root_power(48) == 3764867);
    lemma_root_step(49);
    assert((1753int * 3764867) % 8380417 == 4423672);
    assert(root_power(49) == 4423672);
    lemma_root_step(50);
    assert((1753int * 4423672) % 8380417 == 2811291);
    assert(root_power(50) == 2811291);
    lemma_root_step(51);
    assert((1753int * 2811291) % 8380417 == 507927);
    assert(root_power(51) == 507927);
    lemma_root_step(52);
    assert((1753int * 507927) % 8380417 == 2071829);
    assert(root_power(52) == 2071829);
    lemma_root_step(53);
    assert((1753int * 2071829) % 8380417 == 3195676);
    assert(root_power(53) == 3195676);
    lemma_root_step(54);
    assert((1753int * 3195676) % 8380417 == 3901472);
    assert(root_power(54) == 3901472);
    lemma_root_step(55);
    assert((1753int * 3901472) % 8380417 == 860144);
    assert(root_power(55) == 860144);
    lemma_root_step(56);
    assert((1753int * 860144) % 8380417 == 7737789);
    assert(root_power(56) == 7737789);
    lemma_root_step(57);
    assert((1753int * 7737789) % 8380417 == 4829411);
    assert(root_power(57) == 4829411);
    lemma_root_step(58);
    assert((1753int * 4829411) % 8380417 == 1736313);
    assert(root_power(58) == 1736313);
    lemma_root_step(59);
    assert((1753int * 1736313) % 8380417 == 1665318);
    assert(root_power(59) == 1665318);
    lemma_root_step(60);
    assert((1753int * 1665318) % 8380417 == 2917338);
    assert(root_power(60) == 2917338);
    lemma_root_step(61);
    assert((1753int * 2917338) % 8380417 == 2039144);
    assert(root_power(61) == 2039144);
    lemma_root_step(62);
    assert((1753int * 2039144) % 8380417 == 4561790);
    assert(root_power(62) == 4561790);
    lemma_root_step(63);
    assert((1753int * 4561790) % 8380417 == 1900052);
    assert(root_power(63) == 1900052);
}

proof fn lemma_root_powers_4()
    ensures
        root_power(64) == 3765607,
        root_power(65) == 5720892,
        root_power(66) == 5744944,
        root_power(67) == 6006015,
        root_power(68) == 2740543,
        root_power(69) == 2192938,
        root_power(70) == 5989328,
        root_power(71) == 7009900,
        root_power(72) == 2663378,
        root_power(73) == 1009365,
        root_power(74) == 1148858,
        root_power(75) == 2647994,
        root_power(76) == 7562881,
        root_power(77) == 8291116,
        root_power(78) == 2683270,
        root_power(79) == 2358373,
{
    lemma_root_powers_3();
    lemma_root_step(64);
    assert((1753int * 1900052) % 8380417 == 3765607);
    assert(root_power(64) == 3765607);
    lemma_root_step(65);
    assert((1753int * 3765607) % 8380417 == 5720892);
    assert(root_power(65) == 5720892);
    lemma_root_step(66);
    assert((1753int * 5720892) % 8380417 == 5744944);
    assert(root_power(66) == 5744944);
    lemma_root_step(67);
    assert((1753int * 5744944) % 8380417 == 6006015);
    assert(root_power(67) == 6006015);
    lemma_root_step(68);
    assert((1753int * 6006015) % 8380417 == 2740543);
    assert(root_power(68) == 2740543);
    lemma_root_step(69);
    assert((1753int * 2740543) % 8380417 == 2192938);
    assert(root_power(69) == 2192938);
    lemma_root_step(70);
    assert((1753int * 2192938) % 8380417 == 5989328);
    assert(root_power(70) == 5989328);
    lemma_root_step(71);
    assert((1753int * 5989328) % 8380417 == 7009900);
    assert(root_power(71) == 7009900);
    lemma_root_step(72);
    assert((1753int * 7009900) % 8380417 == 2663378);
    assert(root_power(72) == 2663378);
    lemma_root_step(73);
    assert((1753int * 2663378) % 8380417 == 1009365);
    assert(root_power(73) == 1009365);
    lemma_root_step(74);
    assert((1753int * 1009365) % 8380417 == 1148858);
    assert(root_power(74) == 1148858);
    lemma_root_step(75);
    assert((1753int * 1148858) % 8380417 == 2647994);
    assert(root_power(75) == 2647994);
    lemma_root_step(76);
    assert((1753int * 2647994) % 8380417 == 7562881);
    assert(root_power(76) == 7562881);
    lemma_root_step(77);
    assert((1753int * 7562881) % 8380417 == 8291116);
    assert(root_power(77) == 8291116);
    lemma_root_step(78);
    assert((1753int * 8291116) % 8380417 == 2683270);
    assert(root_power(78) == 2683270);
    lemma_root_step(79);
    assert((1753int * 2683270) % 8380417 == 2358373);
    assert(root_power(79) == 2358373);
}

proof fn lemma_root_powers_5()
    ensures
        root_power(80) == 2682288,
        root_power(81) == 636927,
        root_power(82) == 1937570,
        root_power(83) == 2491325,
        root_power(84) == 1095468,
        root_power(85) == 1239911,
        root_power(86) == 3035980,
        root_power(87) == 508145,
        root_power(88) == 2453983,
        root_power(89) == 2678278,
        root_power(90) == 1987814,
        root_power(91) == 6764887,
        root_power(92) == 556856,
        root_power(93) == 4040196,
        root_power(94) == 1011223,
        root_power(95) == 4405932,
{
    lemma_root_powers_4();
    lemma_root_step(80);
    assert((1753int * 2358373) % 8380417 == 2682288);
    assert(root_power(80) == 2682288);
    lemma_root_step(81);
    assert((1753int * 2682288) % 8380417 == 636927);
    assert(root_power(81) == 636927);
    lemma_root_step(82);
    assert((1753int * 636927) % 8380417 == 1937570);
    assert(root_power(82) == 1937570);
    lemma_root_step(83);
    assert((1753int * 1937570) % 8380417 == 2491325);
    assert(root_power(83) == 2491325);
    lemma_root_step(84);
    assert((1753int * 2491325) % 8380417 == 1095468);
    assert(root_power(84) == 1095468);
    lemma_root_step(85);
    assert((1753int * 1095468) % 8380417 == 1239911);
    assert(root_power(85) == 1239911);
    lemma_root_step(86);
    assert((1753int * 1239911) % 8380417 == 3035980);
    assert(root_power(86) == 3035980);
    lemma_root_step(87);
    assert((1753int * 3035980) % 8380417 == 508145);
    assert(root_power(87) == 508145);
    lemma_root_step(88);
    assert((1753int * 508145) % 8380417 == 2453983);
    assert(root_power(88) == 2453983);
    lemma_root_step(89);
    assert((1753int * 2453983) % 8380417 == 2678278);
    assert(root_power(89) == 2678278);
    lemma_root_step(90);
    assert((1753int * 2678278) % 8380417 == 1987814);
    assert(root_power(90) == 1987814);
    lemma_root_step(91);
    assert((1753int * 1987814) % 8380417 == 6764887);
    assert(root_power(91) == 6764887);
    lemma_root_step(92);
    assert((1753int * 6764887) % 8380417 == 556856);
    assert(root_power(92) == 556856);
    lemma_root_step(93);
    assert((1753int * 556856) % 8380417 == 4040196);
    assert(root_power(93) == 4040196);
    lemma_root_step(94);
    assert((1753int * 4040196) % 8380417 == 1011223);
    assert(root_power(94) == 1011223);
    lemma_root_step(95);
    assert((1753int * 1011223) % 8380417 == 4405932);
    assert(root_power(95) == 4405932);
}

proof fn lemma_root_powers_6()
    ensures
        root_power(96) == 5234739,
        root_power(97) == 8321269,
        root_power(98) == 5258977,
        root_power(99) == 527981,
        root_power(100) == 3704823,
        root_power(101) == 8111961,
        root_power(102) == 7080401,
        root_power(103) == 545376,
        root_power(104) == 676590,
        root_power(105) == 4423473,
        root_power(106) == 2462444,
        root_power(107) == 749577,
        root_power(108) == 6663429,
        root_power(109) == 7070156,
        root_power(110) == 7727142,
        root_power(111) == 2926054,
{
    lemma_root_powers_5();
    lemma_root_step(96);
    assert((1753int * 4405932) % 8380417 == 5234739);
    assert(root_power(96) == 5234739);
    lemma_root_step(97);
    assert((1753int * 5234739) % 8380417 == 8321269);
    assert(root_power(97) == 8321269);
    lemma_root_step(98);
    assert((1753int * 8321269) % 8380417 == 5258977);
    assert(root_power(98) == 5258977);
    lemma_root_step(99);
    assert((1753int * 5258977) % 8380417 == 527981);
    assert(root_power(99) == 527981);
    lemma_root_step(100);
    assert((1753int * 527981) % 8380417 == 3704823);
    assert(root_power(100) == 3704823);
    lemma_root_step(101);
    assert((1753int * 3704823) % 8380417 == 8111961);
    assert(root_power(101) == 8111961);
    lemma_root_step(102);
    assert((1753int * 8111961) % 8380417 == 7080401);
    assert(root_power(102) == 7080401);
    lemma_root_step(103);
    assert((1753int * 7080401) % 8380417 == 545376);
    assert(root_power(103) == 545376);
    lemma_root_step(104);
    assert((1753int * 545376) % 8380417 == 676590);
    assert(root_power(104) == 676590);
    lemma_root_step(105);
    assert((1753int * 676590) % 8380417 == 4423473);
    assert(root_power(105) == 4423473);
    lemma_root_step(106);
    assert((1753int * 4423473) % 8380417 == 2462444);
    assert(root_power(106) == 2462444);
    lemma_root_step(107);
    assert((1753int * 2462444) % 8380417 == 749577);
    assert(root_power(107) == 749577);
    lemma_root_step(108);
    assert((1753int * 749577) % 8380417 == 6663429);
    assert(root_power(108) == 6663429);
    lemma_root_step(109);
    assert((1753int * 6663429) % 8380417 == 7070156);
    assert(root_power(109) == 7070156);
    lemma_root_step(110);
    assert((1753int * 7070156) % 8380417 == 7727142);
    assert(root_power(110) == 7727142);
    lemma_root_step(111);
    assert((1753int * 7727142) % 8380417 == 2926054);
    assert(root_power(111) == 2926054);
}

proof fn lemma_root_powers_7()
    ensures
        root_power(112) == 557458,
        root_power(113) == 5095502,
        root_power(114) == 7270901,
        root_power(115) == 7655613,
        root_power(116) == 3241972,
        root_power(117) == 1254190,
        root_power(118) == 2925816,
        root_power(119) == 140244,
        root_power(120) == 2815639,
        root_power(121) == 8129971,
        root_power(122) == 5130263,
        root_power(123) == 1163598,
        root_power(124) == 3345963,
        root_power(125) == 7561656,
        root_power(126) == 6143691,
        root_power(127) == 1054478,
{
    lemma_root_powers_6();
    lemma_root_step(112);
    assert((1753int * 2926054) % 8380417 == 557458);
    assert(root_power(112) == 557458);
    lemma_root_step(113);
    assert((1753int * 557458) % 8380417 == 5095502);
    assert(root_power(113) == 5095502);
    lemma_root_step(114);
    assert((1753int * 5095502) % 8380417 == 7270901);
    assert(root_power(114) == 7270901);
    lemma_root_step(115);
    assert((1753int * 7270901) % 8380417 == 7655613);
    assert(root_power(115) == 7655613);
    lemma_root_step(116);
    assert((1753int * 7655613) % 8380417 == 3241972);
    assert(root_power(116) == 3241972);
    lemma_root_step(117);
    assert((1753int * 3241972) % 8380417 == 1254190);
    assert(root_power(117) == 1254190);
    lemma_root_step(118);
    assert((1753int * 1254190) % 8380417 == 2925816);
    assert(root_power(118) == 2925816);
    lemma_root_step(119);
    assert((1753int * 2925816) % 8380417 == 140244);
    assert(root_power(119) == 140244);
    lemma_root_step(120);
    assert((1753int * 140244) % 8380417 == 2815639);
    assert(root_power(120) == 2815639);
    lemma_root_step(121);
    assert((1753int * 2815639) % 8380417 == 8129971);
    assert(root_power(121) == 8129971);
    lemma_root_step(122);
    assert((1753int * 8129971) % 8380417 == 5130263);
    assert(root_power(122) == 5130263);
    lemma_root_step(123);
    assert((1753int * 5130263) % 8380417 == 1163598);
    assert(root_power(123) == 1163598);
    lemma_root_step(124);
    assert((1753int * 1163598) % 8380417 == 3345963);
    assert(root_power(124) == 3345963);
    lemma_root_step(125);
    assert((1753int * 3345963) % 8380417 == 7561656);
    assert(root_power(125) == 7561656);
    lemma_root_step(126);
    assert((1753int * 7561656) % 8380417 == 6143691);
    assert(root_power(126) == 6143691);
    lemma_root_step(127);
    assert((1753int * 6143691) % 8380417 == 1054478);
    assert(root_power(127) == 1054478);
}

proof fn lemma_root_powers_8()
    ensures
        root_power(128) == 4808194,
        root_power(129) == 6444997,
        root_power(130) == 1277625,
        root_power(131) == 2105286,
        root_power(132) == 3182878,
        root_power(133) == 6607829,
        root_power(134) == 1787943,
        root_power(135) == 8368538,
        root_power(136) == 4317364,
        root_power(137) == 822541,
        root_power(138) == 482649,
        root_power(139) == 8041997,
        root_power(140) == 1759347,
        root_power(141) == 141835,
        root_power(142) == 5604662,
        root_power(143) == 3123762,
{
    lemma_root_powers_7();
    lemma_root_step(128);
    assert((1753int * 1054478) % 8380417 == 4808194);
    assert(root_power(128) == 4808194);
    lemma_root_step(129);
    assert((1753int * 4808194) % 8380417 == 6444997);
    assert(root_power(129) == 6444997);
    lemma_root_step(130);
    assert((1753int * 6444997) % 8380417 == 1277625);
    assert(root_power(130) == 1277625);
    lemma_root_step(131);
    assert((1753int * 1277625) % 8380417 == 2105286);
    assert(root_power(131) == 2105286);
    lemma_root_step(132);
    assert((1753int * 2105286) % 8380417 == 3182878);
    assert(root_power(132) == 3182878);
    lemma_root_step(133);
    assert((1753int * 3182878) % 8380417 == 6607829);
    assert(root_power(133) == 6607829);
    lemma_root_step(134);
    assert((1753int * 6607829) % 8380417 == 1787943);
    assert(root_power(134) == 1787943);
    lemma_root_step(135);
    assert((1753int * 1787943) % 8380417 == 8368538);
    assert(root_power(135) == 8368538);
    lemma_root_step(136);
    assert((1753int * 8368538) % 8380417 == 4317364);
    assert(root_power(136) == 4317364);
    lemma_root_step(137);
    assert((1753int * 4317364) % 8380417 == 822541);
    assert(root_power(137) == 822541);
    lemma_root_step(138);
    assert((1753int * 822541) % 8380417 == 482649);
    assert(root_power(138) == 482649);
    lemma_root_step(139);
    assert((1753int * 482649) % 8380417 == 8041997);
    assert(root_power(139) == 8041997);
    lemma_root_step(140);
    assert((1753int * 8041997) % 8380417 == 1759347);
    assert(root_power(140) == 1759347);
    lemma_root_step(141);
    assert((1753int * 1759347) % 8380417 == 141835);
    assert(root_power(141) == 141835);
    lemma_root_step(142);
    assert((1753int * 141835) % 8380417 == 5604662);
    assert(root_power(142) == 5604662);
    lemma_root_step(143);
    assert((1753int * 5604662) % 8380417 == 3123762);
    assert(root_power(143) == 3123762);
}

proof fn lemma_root_powers_9()
    ensures
        root_power(144) == 3542485,
        root_power(145) == 87208,
        root_power(146) == 2028118,
        root_power(147) == 1994046,
        root_power(148) == 928749,
        root_power(149) == 2296099,
        root_power(150) == 2461387,
        root_power(151) == 7277073,
        root_power(152) == 1714295,
        root_power(153) == 4969849,
        root_power(154) == 4892034,
        root_power(155) == 2569011,
        root_power(156) == 3192354,
        root_power(157) == 6458423,
        root_power(158) == 8052569,
        root_power(159) == 3531229,
{
    lemma_root_powers_8();
    lemma_root_step(144);
    assert((1753int * 3123762) % 8380417 == 3542485);
    assert(root_power(144) == 3542485);
    lemma_root_step(145);
    assert((1753int * 3542485) % 8380417 == 87208);
    assert(root_power(145) == 87208);
    lemma_root_step(146);
    assert((1753int * 87208) % 8380417 == 2028118);
    assert(root_power(146) == 2028118);
    lemma_root_step(147);
    assert((1753int * 2028118) % 8380417 == 1994046);
    assert(root_power(147) == 1994046);
    lemma_root_step(148);
    assert((1753int * 1994046) % 8380417 == 928749);
    assert(root_power(148) == 928749);
    lemma_root_step(149);
    assert((1753int * 928749) % 8380417 == 2296099);
    assert(root_power(149) == 2296099);
    lemma_root_step(150);
    assert((1753int * 2296099) % 8380417 == 2461387);
    assert(root_power(150) == 2461387);
    lemma_root_step(151);
    assert((1753int * 2461387) % 8380417 == 7277073);
    assert(root_power(151) == 7277073);
    lemma_root_step(152);
    assert((1753int * 7277073) % 8380417 == 1714295);
    assert(root_power(152) == 1714295);
    lemma_root_step(153);
    assert((1753int * 1714295) % 8380417 == 4969849);
    assert(root_power(153) == 4969849);
    lemma_root_step(154);
    assert((1753int * 4969849) % 8380417 == 4892034);
    assert(root_power(154) == 4892034);
    lemma_root_step(155);
    assert((1753int * 4892034) % 8380417 == 2569011);
    assert(root_power(155) == 2569011);
    lemma_root_step(156);
    assert((1753int * 2569011) % 8380417 == 3192354);
    assert(root_power(156) == 3192354);
    lemma_root_step(157);
    assert((1753int * 3192354) % 8380417 == 6458423);
    assert(root_power(157) == 6458423);
    lemma_root_step(158);
    assert((1753int * 6458423) % 8380417 == 8052569);
    assert(root_power(158) == 8052569);
    lemma_root_step(159);
    assert((1753int * 8052569) % 8380417 == 3531229);
    assert(root_power(159) == 3531229);
}

proof fn lemma_root_powers_10()
    ensures
        root_power(160) == 5496691,
        root_power(161) == 6600190,
        root_power(162) == 5157610,
        root_power(163) == 7200804,
        root_power(164) == 2101410,
        root_power(165) == 4768667,
        root_power(166) == 4197502,
        root_power(167) == 214880,
        root_power(168) == 7946292,
        root_power(169) == 1596822,
        root_power(170) == 169688,
        root_power(171) == 4148469,
        root_power(172) == 6444618,
        root_power(173) == 613238,
        root_power(174) == 2312838,
        root_power(175) == 6663603,
{
    lemma_root_powers_9();
    lemma_root_step(160);
    assert((1753int * 3531229) % 8380417 == 5496691);
    assert(root_power(160) == 5496691);
    lemma_root_step(161);
    assert((1753int * 5496691) % 8380417 == 6600190);
    assert(root_power(161) == 6600190);
    lemma_root_step(162);
    assert((1753int * 6600190) % 8380417 == 5157610);
    assert(root_power(162) == 5157610);
    lemma_root_step(163);
    assert((1753int * 5157610) % 8380417 == 7200804);
    assert(root_power(163) == 7200804);
    lemma_root_step(164);
    assert((1753int * 7200804) % 8380417 == 2101410);
    assert(root_power(164) == 2101410);
    lemma_root_step(165);
    assert((1753int * 2101410) % 8380417 == 4768667);
    assert(root_power(165) == 4768667);
    lemma_root_step(166);
    assert((1753int * 4768667) % 8380417 == 4197502);
    assert(root_power(166) == 4197502);
    lemma_root_step(167);
    assert((1753int * 4197502) % 8380417 == 214880);
    assert(root_power(167) == 214880);
    lemma_root_step(168);
    assert((1753int * 214880) % 8380417 == 7946292);
    assert(root_power(168) == 7946292);
    lemma_root_step(169);
    assert((1753int * 7946292) % 8380417 == 1596822);
    assert(root_power(169) == 1596822);
    lemma_root_step(170);
    assert((1753int * 1596822) % 8380417 == 169688);
    assert(root_power(170) == 169688);
    lemma_root_step(171);
    assert((1753int * 169688) % 8380417 == 4148469);
    assert(root_power(171) == 4148469);
    lemma_root_step(172);
    assert((1753int * 4148469) % 8380417 == 6444618);
    assert(root_power(172) == 6444618);
    lemma_root_step(173);
    assert((1753int * 6444618) % 8380417 == 613238);
    assert(root_power(173) == 613238);
    lemma_root_step(174);
    assert((1753int * 613238) % 8380417 == 2312838);
    assert(root_power(174) == 2312838);
    lemma_root_step(175);
    assert((1753int * 2312838) % 8380417 == 6663603);
    assert(root_power(175) == 6663603);
}

proof fn lemma_root_powers_11()
    ensures
        root_power(176) == 7375178,
        root_power(177) == 6084020,
        root_power(178) == 5396636,
        root_power(179) == 7192532,
        root_power(180) == 4361428,
        root_power(181) == 2642980,
        root_power(182) == 7153756,
        root_power(183) == 3430436,
        root_power(184) == 4795319,
        root_power(185) == 635956,
        root_power(186) == 235407,
        root_power(187) == 2028038,
        root_power(188) == 1853806,
        root_power(189) == 6500539,
        root_power(190) == 6458164,
        root_power(191) == 7598542,
{
    lemma_root_powers_10();
    lemma_root_step(176);
    assert((1753int * 6663603) % 8380417 == 7375178);
    assert(root_power(176) == 7375178);
    lemma_root_step(177);
    assert((1753int * 7375178) % 8380417 == 6084020);
    assert(root_power(177) == 6084020);
    lemma_root_step(178);
    assert((1753int * 6084020) % 8380417 == 5396636);
    assert(root_power(178) == 5396636);
    lemma_root_step(179);
    assert((1753int * 5396636) % 8380417 == 7192532);
    assert(root_power(179) == 7192532);
    lemma_root_step(180);
    assert((1753int * 7192532) % 8380417 == 4361428);
    assert(root_power(180) == 4361428);
    lemma_root_step(181);
    assert((1753int * 4361428) % 8380417 == 2642980);
    assert(root_power(181) == 2642980);
    lemma_root_step(182);
    assert((1753int * 2642980) % 8380417 == 7153756);
    assert(root_power(182) == 7153756);
    lemma_root_step(183);
    assert((1753int * 7153756) % 8380417 == 3430436);
    assert(root_power(183) == 3430436);
    lemma_root_step(184);
    assert((1753int * 3430436) % 8380417 == 4795319);
    assert(root_power(184) == 4795319);
    lemma_root_step(185);
    assert((1753int * 4795319) % 8380417 == 635956);
    assert(root_power(185) == 635956);
    lemma_root_step(186);
    assert((1753int * 635956) % 8380417 == 235407);
    assert(root_power(186) == 235407);
    lemma_root_step(187);
    assert((1753int * 235407) % 8380417 == 2028038);
    assert(root_power(187) == 2028038);
    lemma_root_step(188);
    assert((1753int * 2028038) % 8380417 == 1853806);
    assert(root_power(188) == 1853806);
    lemma_root_step(189);
    assert((1753int * 1853806) % 8380417 == 6500539);
    assert(root_power(189) == 6500539);
    lemma_root_step(190);
    assert((1753int * 6500539) % 8380417 == 6458164);
    assert(root_power(190) == 6458164);
    lemma_root_step(191);
    assert((1753int * 6458164) % 8380417 == 7598542);
    assert(root_power(191) == 7598542);
}

proof fn lemma_root_powers_12()
    ensures
        root_power(192) == 3761513,
        root_power(193) == 6924527,
        root_power(194) == 3852015,
        root_power(195) == 6346610,
        root_power(196) == 4793971,
        root_power(197) == 6653329,
        root_power(198) == 6125690,
        root_power(199) == 3020393,
        root_power(200) == 6705802,
        root_power(201) == 5926272,
        root_power(202) == 5418153,
        root_power(203) == 3009748,
        root_power(204) == 4805951,
        root_power(205) == 2513018,
        root_power(206) == 5601629,
        root_power(207) == 6187330,
{
    lemma_root_powers_11();
    lemma_root_step(192);
    assert((1753int * 7598542) % 8380417 == 3761513);
    assert(root_power(192) == 3761513);
    lemma_root_step(193);
    assert((1753int * 3761513) % 8380417 == 6924527);
    assert(root_power(193) == 6924527);
    lemma_root_step(194);
    assert((1753int * 6924527) % 8380417 == 3852015);
    assert(root_power(194) == 3852015);
    lemma_root_step(195);
    assert((1753int * 3852015) % 8380417 == 6346610);
    assert(root_power(195) == 6346610);
    lemma_root_step(196);
    assert((1753int * 6346610) % 8380417 == 4793971);
    assert(root_power(196) == 4793971);
    lemma_root_step(197);
    assert((1753int * 4793971) % 8380417 == 6653329);
    assert(root_power(197) == 6653329);
    lemma_root_step(198);
    assert((1753int * 6653329) % 8380417 == 6125690);
    assert(root_power(198) == 6125690);
    lemma_root_step(199);
    assert((1753int * 6125690) % 8380417 == 3020393);
    assert(root_power(199) == 3020393);
    lemma_root_step(200);
    assert((1753int * 3020393) % 8380417 == 6705802);
    assert(root_power(200) == 6705802);
    lemma_root_step(201);
    assert((1753int * 6705802) % 8380417 == 5926272);
    assert(root_power(201) == 5926272);
    lemma_root_step(202);
    assert((1753int * 5926272) % 8380417 == 5418153);
    assert(root_power(202) == 5418153);
    lemma_root_step(203);
    assert((1753int * 5418153) % 8380417 == 3009748);
    assert(root_power(203) == 3009748);
    lemma_root_step(204);
    assert((1753int * 3009748) % 8380417 == 4805951);
    assert(root_power(204) == 4805951);
    lemma_root_step(205);
    assert((1753int * 4805951) % 8380417 == 2513018);
    assert(root_power(205) == 2513018);
    lemma_root_step(206);
    assert((1753int * 2513018) % 8380417 == 5601629);
    assert(root_power(206) == 5601629);
    lemma_root_step(207);
    assert((1753int * 5601629) % 8380417 == 6187330);
    assert(root_power(207) == 6187330);
}

proof fn lemma_root_powers_13()
    ensures
        root_power(208) == 2129892,
        root_power(209) == 4415111,
        root_power(210) == 4564692,
        root_power(211) == 6987258,
        root_power(212) == 4874037,
        root_power(213) == 4541938,
        root_power(214) == 621164,
        root_power(215) == 7826699,
        root_power(216) == 1460718,
        root_power(217) == 4611469,
        root_power(218) == 5183169,
        root_power(219) == 1723229,
        root_power(220) == 3870317,
        root_power(221) == 4908348,
        root_power(222) == 6026202,
        root_power(223) == 4606686,
{
    lemma_root_powers_12();
    lemma_root_step(208);
    assert((1753int * 6187330) % 8380417 == 2129892);
    assert(root_power(208) == 2129892);
    lemma_root_step(209);
    assert((1753int * 2129892) % 8380417 == 4415111);
    assert(root_power(209) == 4415111);
    lemma_root_step(210);
    assert((1753int * 4415111) % 8380417 == 4564692);
    assert(root_power(210) == 4564692);
    lemma_root_step(211);
    assert((1753int * 4564692) % 8380417 == 6987258);
    assert(root_power(211) == 6987258);
    lemma_root_step(212);
    assert((1753int * 6987258) % 8380417 == 4874037);
    assert(root_power(212) == 4874037);
    lemma_root_step(213);
    assert((1753int * 4874037) % 8380417 == 4541938);
    assert(root_power(213) == 4541938);
    lemma_root_step(214);
    assert((1753int * 4541938) % 8380417 == 621164);
    assert(root_power(214) == 621164);
    lemma_root_step(215);
    assert((1753int * 621164) % 8380417 == 7826699);
    assert(root_power(215) == 7826699);
    lemma_root_step(216);
    assert((1753int * 7826699) % 8380417 == 1460718);
    assert(root_power(216) == 1460718);
    lemma_root_step(217);
    assert((1753int * 1460718) % 8380417 == 4611469);
    assert(root_power(217) == 4611469);
    lemma_root_step(218);
    assert((1753int * 4611469) % 8380417 == 5183169);
    assert(root_power(218) == 5183169);
    lemma_root_step(219);
    assert((1753int * 5183169) % 8380417 == 1723229);
    assert(root_power(219) == 1723229);
    lemma_root_step(220);
    assert((1753int * 1723229) % 8380417 == 3870317);
    assert(root_power(220) == 3870317);
    lemma_root_step(221);
    assert((1753int * 3870317) % 8380417 == 4908348);
    assert(root_power(221) == 4908348);
    lemma_root_step(222);
    assert((1753int * 4908348) % 8380417 == 6026202);
    assert(root_power(222) == 6026202);
    lemma_root_step(223);
    assert((1753int * 6026202) % 8380417 == 4606686);
    assert(root_power(223) == 4606686);
}

proof fn lemma_root_powers_14()
    ensures
        root_power(224) == 5178987,
        root_power(225) == 2772600,
        root_power(226) == 8106357,
        root_power(227) == 5637006,
        root_power(228) == 1159875,
        root_power(229) == 5199961,
        root_power(230) == 6018354,
        root_power(231) == 7609976,
        root_power(232) == 7044481,
        root_power(233) == 4620952,
        root_power(234) == 5046034,
        root_power(235) == 4357667,
        root_power(236) == 4430364,
        root_power(237) == 6161950,
        root_power(238) == 7921254,
        root_power(239) == 7987710,
{
    lemma_root_powers_13();
    lemma_root_step(224);
    assert((1753int * 4606686) % 8380417 == 5178987);
    assert(root_power(224) == 5178987);
    lemma_root_step(225);
    assert((1753int * 5178987) % 8380417 == 2772600);
    assert(root_power(225) == 2772600);
    lemma_root_step(226);
    assert((1753int * 2772600) % 8380417 == 8106357);
    assert(root_power(226) == 8106357);
    lemma_root_step(227);
    assert((1753int * 8106357) % 8380417 == 5637006);
    assert(root_power(227) == 5637006);
    lemma_root_step(228);
    assert((1753int * 5637006) % 8380417 == 1159875);
    assert(root_power(228) == 1159875);
    lemma_root_step(229);
    assert((1753int * 1159875) % 8380417 == 5199961);
    assert(root_power(229) == 5199961);
    lemma_root_step(230);
    assert((1753int * 5199961) % 8380417 == 6018354);
    assert(root_power(230) == 6018354);
    lemma_root_step(231);
    assert((1753int * 6018354) % 8380417 == 7609976);
    assert(root_power(231) == 7609976);
    lemma_root_step(232);
    assert((1753int * 7609976) % 8380417 == 7044481);
    assert(root_power(232) == 7044481);
    lemma_root_step(233);
    assert((1753int * 7044481) % 8380417 == 4620952);
    assert(root_power(233) == 4620952);
    lemma_root_step(234);
    assert((1753int * 4620952) % 8380417 == 5046034);
    assert(root_power(234) == 5046034);
    lemma_root_step(235);
    assert((1753int * 5046034) % 8380417 == 4357667);
    assert(root_power(235) == 4357667);
    lemma_root_step(236);
    assert((1753int * 4357667) % 8380417 == 4430364);
    assert(root_power(236) == 4430364);
    lemma_root_step(237);
    assert((1753int * 4430364) % 8380417 == 6161950);
    assert(root_power(237) == 6161950);
    lemma_root_step(238);
    assert((1753int * 6161950) % 8380417 == 7921254);
    assert(root_power(238) == 7921254);
    lemma_root_step(239);
    assert((1753int * 7921254) % 8380417 == 7987710);
    assert(root_power(239) == 7987710);
}

proof fn lemma_root_powers_15()
    ensures
        root_power(240) == 7159240,
        root_power(241) == 4663471,
        root_power(242) == 4158088,
        root_power(243) == 6545891,
        root_power(244) == 2156050,
        root_power(245) == 8368000,
        root_power(246) == 3374250,
        root_power(247) == 6866265,
        root_power(248) == 2283733,
        root_power(249) == 5925040,
        root_power(250) == 3258457,
        root_power(251) == 5011144,
        root_power(252) == 1858416,
        root_power(253) == 6201452,
        root_power(254) == 1744507,
        root_power(255) == 7648983,
{
    lemma_root_powers_14();
    lemma_root_step(240);
    assert((1753int * 7987710) % 8380417 == 7159240);
    assert(root_power(240) == 7159240);
    lemma_root_step(241);
    assert((1753int * 7159240) % 8380417 == 4663471);
    assert(root_power(241) == 4663471);
    lemma_root_step(242);
    assert((1753int * 4663471) % 8380417 == 4158088);
    assert(root_power(242) == 4158088);
    lemma_root_step(243);
    assert((1753int * 4158088) % 8380417 == 6545891);
    assert(root_power(243) == 6545891);
    lemma_root_step(244);
    assert((1753int * 6545891) % 8380417 == 2156050);
    assert(root_power(244) == 2156050);
    lemma_root_step(245);
    assert((1753int * 2156050) % 8380417 == 8368000);
    assert(root_power(245) == 8368000);
    lemma_root_step(246);
    assert((1753int * 8368000) % 8380417 == 3374250);
    assert(root_power(246) == 3374250);
    lemma_root_step(247);
    assert((1753int * 3374250) % 8380417 == 6866265);
    assert(root_power(247) == 6866265);
    lemma_root_step(248);
    assert((1753int * 6866265) % 8380417 == 2283733);
    assert(root_power(248) == 2283733);
    lemma_root_step(249);
    assert((1753int * 2283733) % 8380417 == 5925040);
    assert(root_power(249) == 5925040);
    lemma_root_step(250);
    assert((1753int * 5925040) % 8380417 == 3258457);
    assert(root_power(250) == 3258457);
    lemma_root_step(251);
    assert((1753int * 3258457) % 8380417 == 5011144);
    assert(root_power(251) == 5011144);
    lemma_root_step(252);
    assert((1753int * 5011144) % 8380417 == 1858416);
    assert(root_power(252) == 1858416);
    lemma_root_step(253);
    assert((1753int * 1858416) % 8380417 == 6201452);
    assert(root_power(253) == 6201452);
    lemma_root_step(254);
    assert((1753int * 6201452) % 8380417 == 1744507);
    assert(root_power(254) == 1744507);
    lemma_root_step(255);
    assert((1753int * 1744507) % 8380417 == 7648983);
    assert(root_power(255) == 7648983);
}

proof fn lemma_root_powers_16()
    ensures
        root_power(256) == 8380416,
{
    lemma_root_powers_15();
    lemma_root_step(256);
    assert((1753int * 7648983) % 8380417 == 8380416);
    assert(root_power(256) == 8380416);
}

/// The root 1753 has order 512: its power 256 is -1.
pub proof fn lemma_root_order()
    ensures
        root_power(256) == q() - 1,
{
    lemma_root_powers_16();
}

proof fn lemma_table_root_0(k: int)
    requires
        1 <= k < 8,
    ensures
        zeta_table(k) == root_power(bit_reversed(k) as nat),
{
    if k == 1 {
        lemma_root_powers_8();
        assert(bit_reversed(1) == 128);
        assert(zeta_table(1) == 4808194);
    } else if k == 2 {
        lemma_root_powers_4();
        assert(bit_reversed(2) == 64);
        assert(zeta_table(2) == 3765607);
    } else if k == 3 {
        lemma_root_powers_12();
        assert(bit_reversed(3) == 192);
        assert(zeta_table(3) == 3761513);
    } else if k == 4 {
        lemma_root_powers_2();
        assert(bit_reversed(4) == 32);
        assert(zeta_table(4) == 5178923);
    } else if k == 5 {
        lemma_root_powers_10();
        assert(bit_reversed(5) == 160);
        assert(zeta_table(5) == 5496691);
    } else if k == 6 {
        lemma_root_powers_6();
        assert(bit_reversed(6) == 96);
        assert(zeta_table(6) == 5234739);
    } else if k == 7 {
        lemma_root_powers_14();
        assert(bit_reversed(7) == 224);
        assert(zeta_table(7) == 5178987);
    }
}

proof fn lemma_table_root_1(k: int)
    requires
        8 <= k < 16,
    ensures
        zeta_table(k) == root_power(bit_reversed(k) as nat),
{
    if k == 8 {
        lemma_root_powers_1();
        assert(bit_reversed(8) == 16);
        assert(zeta_table(8) == 7778734);
    } else if k == 9 {
        lemma_root_powers_9();
        assert(bit_reversed(9) == 144);
        assert(zeta_table(9) == 3542485);
    } else if k == 10 {
        lemma_root_powers_5();
        assert(bit_reversed(10) == 80);
        assert(zeta_table(10) == 2682288);
    } else if k == 11 {
        lemma_root_powers_13();
        assert(bit_reversed(11) == 208);
        assert(zeta_table(11) == 2129892);
    } else if k == 12 {
        lemma_root_powers_3();
        assert(bit_reversed(12) == 48);
        assert(zeta_table(12) == 3764867);
    } else if k == 13 {
        lemma_root_powers_11();
        assert(bit_reversed(13) == 176);
        assert(zeta_table(13) == 7375178);
    } else if k == 14 {
        lemma_root_powers_7();
        assert(bit_reversed(14) == 112);
        assert(zeta_table(14) == 557458);
    } else if k == 15 {
        lemma_root_powers_15();
        assert(bit_reversed(15) == 240);
        assert(zeta_table(15) == 7159240);
    }
}

proof fn lemma_table_root_2(k: int)
    requires
        16 <= k < 24,
    ensures
        zeta_table(k) == root_power(bit_reversed(k) as nat),
{
    if k == 16 {
        lemma_root_powers_0();
        assert(bit_reversed(16) == 8);
        assert(zeta_table(16) == 5010068);
    } else if k == 17 {
        lemma_root_powers_8();
        assert(bit_reversed(17) == 136);
        assert(zeta_table(17) == 4317364);
    } else if k == 18 {
        lemma_root_powers_4();
        assert(bit_reversed(18) == 72);
        assert(zeta_table(18) == 2663378);
    } else if k == 19 {
        lemma_root_powers_12();
        assert(bit_reversed(19) == 200);
        assert(zeta_table(19) == 6705802);
    } else if k == 20 {
        lemma_root_powers_2();
        assert(bit_reversed(20) == 40);
        assert(zeta_table(20) == 4855975);
    } else if k == 21 {
        lemma_root_powers_10();
        assert(bit_reversed(21) == 168);
        assert(zeta_table(21) == 7946292);
    } else if k == 22 {
        lemma_root_powers_6();
        assert(bit_reversed(22) == 104);
        assert(zeta_table(22) == 676590);
    } else if k == 23 {
        lemma_root_powers_14();
        assert(bit_reversed(23) == 232);
        assert(zeta_table(23) == 7044481);
    }
}

proof fn lemma_table_root_3(k: int)
    requires
        24 <= k < 32,
    ensures
        zeta_table(k) == root_power(bit_reversed(k) as nat),
{
    if k == 24 {
        lemma_root_powers_1();
        assert(bit_reversed(24) == 24);
        assert(zeta_table(24) == 5152541);
    } else if k == 25 {
        lemma_root_powers_9();
        assert(bit_reversed(25) == 152);
        assert(zeta_table(25) == 1714295);
    } else if k == 26 {
        lemma_root_powers_5();
        assert(bit_reversed(26) == 88);
        assert(zeta_table(26) == 2453983);
    } else if k == 27 {
        lemma_root_powers_13();
        assert(bit_reversed(27) == 216);
        assert(zeta_table(27) == 1460718);
    } else if k == 28 {
        lemma_root_powers_3();
        assert(bit_reversed(28) == 56);
        assert(zeta_table(28) == 7737789);
    } else if k == 29 {
        lemma_root_powers_11();
        assert(bit_reversed(29) == 184);
        assert(zeta_table(29) == 4795319);
    } else if k == 30 {
        lemma_root_powers_7();
        assert(bit_reversed(30) == 120);
        assert(zeta_table(30) == 2815639);
    } else if k == 31 {
        lemma_root_powers_15();
        assert(bit_reversed(31) == 248);
        assert(zeta_table(31) == 2283733);
    }
}

proof fn lemma_table_root_4(k: int)
    requires
        32 <= k < 40,
    ensures
        zeta_table(k) == root_power(bit_reversed(k) as nat),
{
    if k == 32 {
        lemma_root_powers_0();
        assert(bit_reversed(32) == 4);
        assert(zeta_table(32) == 3602218);
    } else if k == 33 {
        lemma_root_powers_8();
        assert(bit_reversed(33) == 132);
        assert(zeta_table(33) == 3182878);
    } else if k == 34 {
        lemma_root_powers_4();
        assert(bit_reversed(34) == 68);
        assert(zeta_table(34) == 2740543);
    } else if k == 35 {
        lemma_root_powers_12();
        assert(bit_reversed(35) == 196);
        assert(zeta_table(35) == 4793971);
    } else if k == 36 {
        lemma_root_powers_2();
        assert(bit_reversed(36) == 36);
        assert(zeta_table(36) == 5269599);
    } else if k == 37 {
        lemma_root_powers_10();
        assert(bit_reversed(37) == 164);
        assert(zeta_table(37) == 2101410);
    } else if k == 38 {
        lemma_root_powers_6();
        assert(bit_reversed(38) == 100);
        assert(zeta_table(38) == 3704823);
    } else if k == 39 {
        lemma_root_powers_14();
        assert(bit_reversed(39) == 228);
        assert(zeta_table(39) == 1159875);
    }
}

proof fn lemma_table_root_5(k: int)
    requires
        40 <= k < 48,
    ensures
        zeta_table(k) == root_power(bit_reversed(k) as nat),
{
    if k == 40 {
        lemma_root_powers_1();
        assert(bit_reversed(40) == 20);
        assert(zeta_table(40) == 394148);
    } else if k == 41 {
        lemma_root_powers_9();
        assert(bit_reversed(41) == 148);
        assert(zeta_table(41) == 928749);
    } else if k == 42 {
        lemma_root_powers_5();
        assert(bit_reversed(42) == 84);
        assert(zeta_table(42) == 1095468);
    } else if k == 43 {
        lemma_root_powers_13();
        assert(bit_reversed(43) == 212);
        assert(zeta_table(43) == 4874037);
    } else if k == 44 {
        lemma_root_powers_3();
        assert(bit_reversed(44) == 52);
        assert(zeta_table(44) == 2071829);
    } else if k == 45 {
        lemma_root_powers_11();
        assert(bit_reversed(45) == 180);
        assert(zeta_table(45) == 4361428);
    } else if k == 46 {
        lemma_root_powers_7();
        assert(bit_reversed(46) == 116);
        assert(zeta_table(46) == 3241972);
    } else if k == 47 {
        lemma_root_powers_15();
        assert(bit_reversed(47) == 244);
        assert(zeta_table(47) == 2156050);
    }
}

proof fn lemma_table_root_6(k: int)
    requires
        48 <= k < 56,
    ensures
        zeta_table(k) == root_power(bit_reversed(k) as nat),
{
    if k == 48 {
        lemma_root_powers_0();
        assert(bit_reversed(48) == 12);
        assert(zeta_table(48) == 3415069);
    } else if k == 49 {
        lemma_root_powers_8();
        assert(bit_reversed(49) == 140);
        assert(zeta_table(49) == 1759347);
    } else if k == 50 {
        lemma_root_powers_4();
        assert(bit_reversed(50) == 76);
        assert(zeta_table(50) == 7562881);
    } else if k == 51 {
        lemma_root_powers_12();
        assert(bit_reversed(51) == 204);
        assert(zeta_table(51) == 4805951);
    } else if k == 52 {
        lemma_root_powers_2();
        assert(bit_reversed(52) == 44);
        assert(zeta_table(52) == 3756790);
    } else if k == 53 {
        lemma_root_powers_10();
        assert(bit_reversed(53) == 172);
        assert(zeta_table(53) == 6444618);
    } else if k == 54 {
        lemma_root_powers_6();
        assert(bit_reversed(54) == 108);
        assert(zeta_table(54) == 6663429);
    } else if k == 55 {
        lemma_root_powers_14();
        assert(bit_reversed(55) == 236);
        assert(zeta_table(55) == 4430364);
    }
}

proof fn lemma_table_root_7(k: int)
    requires
        56 <= k < 64,
    ensures
        zeta_table(k) == root_power(bit_reversed(k) as nat),
{
    if k == 56 {
        lemma_root_powers_1();
        assert(bit_reversed(56) == 28);
        assert(zeta_table(56) == 5483103);
    } else if k == 57 {
        lemma_root_powers_9();
        assert(bit_reversed(57) == 156);
        assert(zeta_table(57) == 3192354);
    } else if k == 58 {
        lemma_root_powers_5();
        assert(bit_reversed(58) == 92);
        assert(zeta_table(58) == 556856);
    } else if k == 59 {
        lemma_root_powers_13();
        assert(bit_reversed(59) == 220);
        assert(zeta_table(59) == 3870317);
    } else if k == 60 {
        lemma_root_powers_3();
        assert(bit_reversed(60) == 60);
        assert(zeta_table(60) == 2917338);
    } else if k == 61 {
        lemma_root_powers_11();
        assert(bit_reversed(61) == 188);
        assert(zeta_table(61) == 1853806);
    } else if k == 62 {
        lemma_root_powers_7();
        assert(bit_reversed(62) == 124);
        assert(zeta_table(62) == 3345963);
    } else if k == 63 {
        lemma_root_powers_15();
        assert(bit_reversed(63) == 252);
        assert(zeta_table(63) == 1858416);
    }
}

proof fn lemma_table_root_8(k: int)
    requires
        64 <= k < 72,
    ensures
        zeta_table(k) == root_power(bit_reversed(k) as nat),
{
    if k == 64 {
        lemma_root_powers_0();
        assert(bit_reversed(64) == 2);
        assert(zeta_table(64) == 3073009);
    } else if k == 65 {
        lemma_root_powers_8();
        assert(bit_reversed(65) == 130);
        assert(zeta_table(65) == 1277625);
    } else if k == 66 {
        lemma_root_powers_4();
        assert(bit_reversed(66) == 66);
        assert(zeta_table(66) == 5744944);
    } else if k == 67 {
        lemma_root_powers_12();
        assert(bit_reversed(67) == 194);
        assert(zeta_table(67) == 3852015);
    } else if k == 68 {
        lemma_root_powers_2();
        assert(bit_reversed(68) == 34);
        assert(zeta_table(68) == 4183372);
    } else if k == 69 {
        lemma_root_powers_10();
        assert(bit_reversed(69) == 162);
        assert(zeta_table(69) == 5157610);
    } else if k == 70 {
        lemma_root_powers_6();
        assert(bit_reversed(70) == 98);
        assert(zeta_table(70) == 5258977);
    } else if k == 71 {
        lemma_root_powers_14();
        assert(bit_reversed(71) == 226);
        assert(zeta_table(71) == 8106357);
    }
}

proof fn lemma_table_root_9(k: int)
    requires
        72 <= k < 80,
    ensures
        zeta_table(k) == root_power(bit_reversed(k) as nat),
{
    if k == 72 {
        lemma_root_powers_1();
        assert(bit_reversed(72) == 18);
        assert(zeta_table(72) == 2508980);
    } else if k == 73 {
        lemma_root_powers_9();
        assert(bit_reversed(73) == 146);
        assert(zeta_table(73) == 2028118);
    } else if k == 74 {
        lemma_root_powers_5();
        assert(bit_reversed(74) == 82);
        assert(zeta_table(74) == 1937570);
    } else if k == 75 {
        lemma_root_powers_13();
        assert(bit_reversed(75) == 210);
        assert(zeta_table(75) == 4564692);
    } else if k == 76 {
        lemma_root_powers_3();
        assert(bit_reversed(76) == 50);
        assert(zeta_table(76) == 2811291);
    } else if k == 77 {
        lemma_root_powers_11();
        assert(bit_reversed(77) == 178);
        assert(zeta_table(77) == 5396636);
    } else if k == 78 {
        lemma_root_powers_7();
        assert(bit_reversed(78) == 114);
        assert(zeta_table(78) == 7270901);
    } else if k == 79 {
        lemma_root_powers_15();
        assert(bit_reversed(79) == 242);
        assert(zeta_table(79) == 4158088);
    }
}

proof fn lemma_table_root_10(k: int)
    requires
        80 <= k < 88,
    ensures
        zeta_table(k) == root_power(bit_reversed(k) as nat),
{
    if k == 80 {
        lemma_root_powers_0();
        assert(bit_reversed(80) == 10);
        assert(zeta_table(80) == 1528066);
    } else if k == 81 {
        lemma_root_powers_8();
        assert(bit_reversed(81) == 138);
        assert(zeta_table(81) == 482649);
    } else if k == 82 {
        lemma_root_powers_4();
        assert(bit_reversed(82) == 74);
        assert(zeta_table(82) == 1148858);
    } else if k == 83 {
        lemma_root_powers_12();
        assert(bit_reversed(83) == 202);
        assert(zeta_table(83) == 5418153);
    } else if k == 84 {
        lemma_root_powers_2();
        assert(bit_reversed(84) == 42);
        assert(zeta_table(84) == 7814814);
    } else if k == 85 {
        lemma_root_powers_10();
        assert(bit_reversed(85) == 170);
        assert(zeta_table(85) == 169688);
    } else if k == 86 {
        lemma_root_powers_6();
        assert(bit_reversed(86) == 106);
        assert(zeta_table(86) == 2462444);
    } else if k == 87 {
        lemma_root_powers_14();
        assert(bit_reversed(87) == 234);
        assert(zeta_table(87) == 5046034);
    }
}

proof fn lemma_table_root_11(k: int)
    requires
        88 <= k < 96,
    ensures
        zeta_table(k) == root_power(bit_reversed(k) as nat),
{
    if k == 88 {
        lemma_root_powers_1();
        assert(bit_reversed(88) == 26);
        assert(zeta_table(88) == 4213992);
    } else if k == 89 {
        lemma_root_powers_9();
        assert(bit_reversed(89) == 154);
        assert(zeta_table(89) == 4892034);
    } else if k == 90 {
        lemma_root_powers_5();
        assert(bit_reversed(90) == 90);
        assert(zeta_table(90) == 1987814);
    } else if k == 91 {
        lemma_root_powers_13();
        assert(bit_reversed(91) == 218);
        assert(zeta_table(91) == 5183169);
    } else if k == 92 {
        lemma_root_powers_3();
        assert(bit_reversed(92) == 58);
        assert(zeta_table(92) == 1736313);
    } else if k == 93 {
        lemma_root_powers_11();
        assert(bit_reversed(93) == 186);
        assert(zeta_table(93) == 235407);
    } else if k == 94 {
        lemma_root_powers_7();
        assert(bit_reversed(94) == 122);
        assert(zeta_table(94) == 5130263);
    } else if k == 95 {
        lemma_root_powers_15();
        assert(bit_reversed(95) == 250);
        assert(zeta_table(95) == 3258457);
    }
}

proof fn lemma_table_root_12(k: int)
    requires
        96 <= k < 104,
    ensures
        zeta_table(k) == root_power(bit_reversed(k) as nat),
{
    if k == 96 {
        lemma_root_powers_0();
        assert(bit_reversed(96) == 6);
        assert(zeta_table(96) == 5801164);
    } else if k == 97 {
        lemma_root_powers_8();
        assert(bit_reversed(97) == 134);
        assert(zeta_table(97) == 1787943);
    } else if k == 98 {
        lemma_root_powers_4();
        assert(bit_reversed(98) == 70);
        assert(zeta_table(98) == 5989328);
    } else if k == 99 {
        lemma_root_powers_12();
        assert(bit_reversed(99) == 198);
        assert(zeta_table(99) == 6125690);
    } else if k == 100 {
        lemma_root_powers_2();
        assert(bit_reversed(100) == 38);
        assert(zeta_table(100) == 3482206);
    } else if k == 101 {
        lemma_root_powers_10();
        assert(bit_reversed(101) == 166);
        assert(zeta_table(101) == 4197502);
    } else if k == 102 {
        lemma_root_powers_6();
        assert(bit_reversed(102) == 102);
        assert(zeta_table(102) == 7080401);
    } else if k == 103 {
        lemma_root_powers_14();
        assert(bit_reversed(103) == 230);
        assert(zeta_table(103) == 6018354);
    }
}

proof fn lemma_table_root_13(k: int)
    requires
        104 <= k < 112,
    ensures
        zeta_table(k) == root_power(bit_reversed(k) as nat),
{
    if k == 104 {
        lemma_root_powers_1();
        assert(bit_reversed(104) == 22);
        assert(zeta_table(104) == 7062739);
    } else if k == 105 {
        lemma_root_powers_9();
        assert(bit_reversed(105) == 150);
        assert(zeta_table(105) == 2461387);
    } else if k == 106 {
        lemma_root_powers_5();
        assert(bit_reversed(106) == 86);
        assert(zeta_table(106) == 3035980);
    } else if k == 107 {
        lemma_root_powers_13();
        assert(bit_reversed(107) == 214);
        assert(zeta_table(107) == 621164);
    } else if k == 108 {
        lemma_root_powers_3();
        assert(bit_reversed(108) == 54);
        assert(zeta_table(108) == 3901472);
    } else if k == 109 {
        lemma_root_powers_11();
        assert(bit_reversed(109) == 182);
        assert(zeta_table(109) == 7153756);
    } else if k == 110 {
        lemma_root_powers_7();
        assert(bit_reversed(110) == 118);
        assert(zeta_table(110) == 2925816);
    } else if k == 111 {
        lemma_root_powers_15();
        assert(bit_reversed(111) == 246);
        assert(zeta_table(111) == 3374250);
    }
}

proof fn lemma_table_root_14(k: int)
    requires
        112 <= k < 120,
    ensures
        zeta_table(k) == root_power(bit_reversed(k) as nat),
{
    if k == 112 {
        lemma_root_powers_0();
        assert(bit_reversed(112) == 14);
        assert(zeta_table(112) == 1356448);
    } else if k == 113 {
        lemma_root_powers_8();
        assert(bit_reversed(113) == 142);
        assert(zeta_table(113) == 5604662);
    } else if k == 114 {
        lemma_root_powers_4();
        assert(bit_reversed(114) == 78);
        assert(zeta_table(114) == 2683270);
    } else if k == 115 {
        lemma_root_powers_12();
        assert(bit_reversed(115) == 206);
        assert(zeta_table(115) == 5601629);
    } else if k == 116 {
        lemma_root_powers_2();
        assert(bit_reversed(116) == 46);
        assert(zeta_table(116) == 4912752);
    } else if k == 117 {
        lemma_root_powers_10();
        assert(bit_reversed(117) == 174);
        assert(zeta_table(117) == 2312838);
    } else if k == 118 {
        lemma_root_powers_6();
        assert(bit_reversed(118) == 110);
        assert(zeta_table(118) == 7727142);
    } else if k == 119 {
        lemma_root_powers_14();
        assert(bit_reversed(119) == 238);
        assert(zeta_table(119) == 7921254);
    }
}

proof fn lemma_table_root_15(k: int)
    requires
        120 <= k < 128,
    ensures
        zeta_table(k) == root_power(bit_reversed(k) as nat),
{
    if k == 120 {
        lemma_root_powers_1();
        assert(bit_reversed(120) == 30);
        assert(zeta_table(120) == 348812);
    } else if k == 121 {
        lemma_root_powers_9();
        assert(bit_reversed(121) == 158);
        assert(zeta_table(121) == 8052569);
    } else if k == 122 {
        lemma_root_powers_5();
        assert(bit_reversed(122) == 94);
        assert(zeta_table(122) == 1011223);
    } else if k == 123 {
        lemma_root_powers_13();
        assert(bit_reversed(123) == 222);
        assert(zeta_table(123) == 6026202);
    } else if k == 124 {
        lemma_root_powers_3();
        assert(bit_reversed(124) == 62);
        assert(zeta_table(124) == 4561790);
    } else if k == 125 {
        lemma_root_powers_11();
        assert(bit_reversed(125) == 190);
        assert(zeta_table(125) == 6458164);
    } else if k == 126 {
        lemma_root_powers_7();
        assert(bit_reversed(126) == 126);
        assert(zeta_table(126) == 6143691);
    } else if k == 127 {
        lemma_root_powers_15();
        assert(bit_reversed(127) == 254);
        assert(zeta_table(127) == 1744507);
    }
}

proof fn lemma_table_root_16(k: int)
    requires
        128 <= k < 136,
    ensures
        zeta_table(k) == root_power(bit_reversed(k) as nat),
{
    if k == 128 {
        lemma_root_powers_0();
        assert(bit_reversed(128) == 1);
        assert(zeta_table(128) == 1753);
    } else if k == 129 {
        lemma_root_powers_8();
        assert(bit_reversed(129) == 129);
        assert(zeta_table(129) == 6444997);
    } else if k == 130 {
        lemma_root_powers_4();
        assert(bit_reversed(130) == 65);
        assert(zeta_table(130) == 5720892);
    } else if k == 131 {
        lemma_root_powers_12();
        assert(bit_reversed(131) == 193);
        assert(zeta_table(131) == 6924527);
    } else if k == 132 {
        lemma_root_powers_2();
        assert(bit_reversed(132) == 33);
        assert(zeta_table(132) == 2660408);
    } else if k == 133 {
        lemma_root_powers_10();
        assert(bit_reversed(133) == 161);
        assert(zeta_table(133) == 6600190);
    } else if k == 134 {
        lemma_root_powers_6();
        assert(bit_reversed(134) == 97);
        assert(zeta_table(134) == 8321269);
    } else if k == 135 {
        lemma_root_powers_14();
        assert(bit_reversed(135) == 225);
        assert(zeta_table(135) == 2772600);
    }
}

proof fn lemma_table_root_17(k: int)
    requires
        136 <= k < 144,
    ensures
        zeta_table(k) == root_power(bit_reversed(k) as nat),
{
    if k == 136 {
        lemma_root_powers_1();
        assert(bit_reversed(136) == 17);
        assert(zeta_table(136) == 1182243);
    } else if k == 137 {
        lemma_root_powers_9();
        assert(bit_reversed(137) == 145);
        assert(zeta_table(137) == 87208);
    } else if k == 138 {
        lemma_root_powers_5();
        assert(bit_reversed(138) == 81);
        assert(zeta_table(138) == 636927);
    } else if k == 139 {
        lemma_root_powers_13();
        assert(bit_reversed(139) == 209);
        assert(zeta_table(139) == 4415111);
    } else if k == 140 {
        lemma_root_powers_3();
        assert(bit_reversed(140) == 49);
        assert(zeta_table(140) == 4423672);
    } else if k == 141 {
        lemma_root_powers_11();
        assert(bit_reversed(141) == 177);
        assert(zeta_table(141) == 6084020);
    } else if k == 142 {
        lemma_root_powers_7();
        assert(bit_reversed(142) == 113);
        assert(zeta_table(142) == 5095502);
    } else if k == 143 {
        lemma_root_powers_15();
        assert(bit_reversed(143) == 241);
        assert(zeta_table(143) == 4663471);
    }
}

proof fn lemma_table_root_18(k: int)
    requires
        144 <= k < 152,
    ensures
        zeta_table(k) == root_power(bit_reversed(k) as nat),
{
    if k == 144 {
        lemma_root_powers_0();
        assert(bit_reversed(144) == 9);
        assert(zeta_table(144) == 8352605);
    } else if k == 145 {
        lemma_root_powers_8();
        assert(bit_reversed(145) == 137);
        assert(zeta_table(145) == 822541);
    } else if k == 146 {
        lemma_root_powers_4();
        assert(bit_reversed(146) == 73);
        assert(zeta_table(146) == 1009365);
    } else if k == 147 {
        lemma_root_powers_12();
        assert(bit_reversed(147) == 201);
        assert(zeta_table(147) == 5926272);
    } else if k == 148 {
        lemma_root_powers_2();
        assert(bit_reversed(148) == 41);
        assert(zeta_table(148) == 6400920);
    } else if k == 149 {
        lemma_root_powers_10();
        assert(bit_reversed(149) == 169);
        assert(zeta_table(149) == 1596822);
    } else if k == 150 {
        lemma_root_powers_6();
        assert(bit_reversed(150) == 105);
        assert(zeta_table(150) == 4423473);
    } else if k == 151 {
        lemma_root_powers_14();
        assert(bit_reversed(151) == 233);
        assert(zeta_table(151) == 4620952);
    }
}

proof fn lemma_table_root_19(k: int)
    requires
        152 <= k < 160,
    ensures
        zeta_table(k) == root_power(bit_reversed(k) as nat),
{
    if k == 152 {
        lemma_root_powers_1();
        assert(bit_reversed(152) == 25);
        assert(zeta_table(152) == 6695264);
    } else if k == 153 {
        lemma_root_powers_9();
        assert(bit_reversed(153) == 153);
        assert(zeta_table(153) == 4969849);
    } else if k == 154 {
        lemma_root_powers_5();
        assert(bit_reversed(154) == 89);
        assert(zeta_table(154) == 2678278);
    } else if k == 155 {
        lemma_root_powers_13();
        assert(bit_reversed(155) == 217);
        assert(zeta_table(155) == 4611469);
    } else if k == 156 {
        lemma_root_powers_3();
        assert(bit_reversed(156) == 57);
        assert(zeta_table(156) == 4829411);
    } else if k == 157 {
        lemma_root_powers_11();
        assert(bit_reversed(157) == 185);
        assert(zeta_table(157) == 635956);
    } else if k == 158 {
        lemma_root_powers_7();
        assert(bit_reversed(158) == 121);
        assert(zeta_table(158) == 8129971);
    } else if k == 159 {
        lemma_root_powers_15();
        assert(bit_reversed(159) == 249);
        assert(zeta_table(159) == 5925040);
    }
}

proof fn lemma_table_root_20(k: int)
    requires
        160 <= k < 168,
    ensures
        zeta_table(k) == root_power(bit_reversed(k) as nat),
{
    if k == 160 {
        lemma_root_powers_0();
        assert(bit_reversed(160) == 5);
        assert(zeta_table(160) == 4234153);
    } else if k == 161 {
        lemma_root_powers_8();
        assert(bit_reversed(161) == 133);
        assert(zeta_table(161) == 6607829);
    } else if k == 162 {
        lemma_root_powers_4();
        assert(bit_reversed(162) == 69);
        assert(zeta_table(162) == 2192938);
    } else if k == 163 {
        lemma_root_powers_12();
        assert(bit_reversed(163) == 197);
        assert(zeta_table(163) == 6653329);
    } else if k == 164 {
        lemma_root_powers_2();
        assert(bit_reversed(164) == 37);
        assert(zeta_table(164) == 2387513);
    } else if k == 165 {
        lemma_root_powers_10();
        assert(bit_reversed(165) == 165);
        assert(zeta_table(165) == 4768667);
    } else if k == 166 {
        lemma_root_powers_6();
        assert(bit_reversed(166) == 101);
        assert(zeta_table(166) == 8111961);
    } else if k == 167 {
        lemma_root_powers_14();
        assert(bit_reversed(167) == 229);
        assert(zeta_table(167) == 5199961);
    }
}

proof fn lemma_table_root_21(k: int)
    requires
        168 <= k < 176,
    ensures
        zeta_table(k) == root_power(bit_reversed(k) as nat),
{
    if k == 168 {
        lemma_root_powers_1();
        assert(bit_reversed(168) == 21);
        assert(zeta_table(168) == 3747250);
    } else if k == 169 {
        lemma_root_powers_9();
        assert(bit_reversed(169) == 149);
        assert(zeta_table(169) == 2296099);
    } else if k == 170 {
        lemma_root_powers_5();
        assert(bit_reversed(170) == 85);
        assert(zeta_table(170) == 1239911);
    } else if k == 171 {
        lemma_root_powers_13();
        assert(bit_reversed(171) == 213);
        assert(zeta_table(171) == 4541938);
    } else if k == 172 {
        lemma_root_powers_3();
        assert(bit_reversed(172) == 53);
        assert(zeta_table(172) == 3195676);
    } else if k == 173 {
        lemma_root_powers_11();
        assert(bit_reversed(173) == 181);
        assert(zeta_table(173) == 2642980);
    } else if k == 174 {
        lemma_root_powers_7();
        assert(bit_reversed(174) == 117);
        assert(zeta_table(174) == 1254190);
    } else if k == 175 {
        lemma_root_powers_15();
        assert(bit_reversed(175) == 245);
        assert(zeta_table(175) == 8368000);
    }
}

proof fn lemma_table_root_22(k: int)
    requires
        176 <= k < 184,
    ensures
        zeta_table(k) == root_power(bit_reversed(k) as nat),
{
    if k == 176 {
        lemma_root_powers_0();
        assert(bit_reversed(176) == 13);
        assert(zeta_table(176) == 2998219);
    } else if k == 177 {
        lemma_root_powers_8();
        assert(bit_reversed(177) == 141);
        assert(zeta_table(177) == 141835);
    } else if k == 178 {
        lemma_root_powers_4();
        assert(bit_reversed(178) == 77);
        assert(zeta_table(178) == 8291116);
    } else if k == 179 {
        lemma_root_powers_12();
        assert(bit_reversed(179) == 205);
        assert(zeta_table(179) == 2513018);
    } else if k == 180 {
        lemma_root_powers_2();
        assert(bit_reversed(180) == 45);
        assert(zeta_table(180) == 7025525);
    } else if k == 181 {
        lemma_root_powers_10();
        assert(bit_reversed(181) == 173);
        assert(zeta_table(181) == 613238);
    } else if k == 182 {
        lemma_root_powers_6();
        assert(bit_reversed(182) == 109);
        assert(zeta_table(182) == 7070156);
    } else if k == 183 {
        lemma_root_powers_14();
        assert(bit_reversed(183) == 237);
        assert(zeta_table(183) == 6161950);
    }
}

proof fn lemma_table_root_23(k: int)
    requires
        184 <= k < 192,
    ensures
        zeta_table(k) == root_power(bit_reversed(k) as nat),
{
    if k == 184 {
        lemma_root_powers_1();
        assert(bit_reversed(184) == 29);
        assert(zeta_table(184) == 7921677);
    } else if k == 185 {
        lemma_root_powers_9();
        assert(bit_reversed(185) == 157);
        assert(zeta_table(185) == 6458423);
    } else if k == 186 {
        lemma_root_powers_5();
        assert(bit_reversed(186) == 93);
        assert(zeta_table(186) == 4040196);
    } else if k == 187 {
        lemma_root_powers_13();
        assert(bit_reversed(187) == 221);
        assert(zeta_table(187) == 4908348);
    } else if k == 188 {
        lemma_root_powers_3();
        assert(bit_reversed(188) == 61);
        assert(zeta_table(188) == 2039144);
    } else if k == 189 {
        lemma_root_powers_11();
        assert(bit_reversed(189) == 189);
        assert(zeta_table(189) == 6500539);
    } else if k == 190 {
        lemma_root_powers_7();
        assert(bit_reversed(190) == 125);
        assert(zeta_table(190) == 7561656);
    } else if k == 191 {
        lemma_root_powers_15();
        assert(bit_reversed(191) == 253);
        assert(zeta_table(191) == 6201452);
    }
}

proof fn lemma_table_root_24(k: int)
    requires
        192 <= k < 200,
    ensures
        zeta_table(k) == root_power(bit_reversed(k) as nat),
{
    if k == 192 {
        lemma_root_powers_0();
        assert(bit_reversed(192) == 3);
        assert(zeta_table(192) == 6757063);
    } else if k == 193 {
        lemma_root_powers_8();
        assert(bit_reversed(193) == 131);
        assert(zeta_table(193) == 2105286);
    } else if k == 194 {
        lemma_root_powers_4();
        assert(bit_reversed(194) == 67);
        assert(zeta_table(194) == 6006015);
    } else if k == 195 {
        lemma_root_powers_12();
        assert(bit_reversed(195) == 195);
        assert(zeta_table(195) == 6346610);
    } else if k == 196 {
        lemma_root_powers_2();
        assert(bit_reversed(196) == 35);
        assert(zeta_table(196) == 586241);
    } else if k == 197 {
        lemma_root_powers_10();
        assert(bit_reversed(197) == 163);
        assert(zeta_table(197) == 7200804);
    } else if k == 198 {
        lemma_root_powers_6();
        assert(bit_reversed(198) == 99);
        assert(zeta_table(198) == 527981);
    } else if k == 199 {
        lemma_root_powers_14();
        assert(bit_reversed(199) == 227);
        assert(zeta_table(199) == 5637006);
    }
}

proof fn lemma_table_root_25(k: int)
    requires
        200 <= k < 208,
    ensures
        zeta_table(k) == root_power(bit_reversed(k) as nat),
{
    if k == 200 {
        lemma_root_powers_1();
        assert(bit_reversed(200) == 19);
        assert(zeta_table(200) == 6903432);
    } else if k == 201 {
        lemma_root_powers_9();
        assert(bit_reversed(201) == 147);
        assert(zeta_table(201) == 1994046);
    } else if k == 202 {
        lemma_root_powers_5();
        assert(bit_reversed(202) == 83);
        assert(zeta_table(202) == 2491325);
    } else if k == 203 {
        lemma_root_powers_13();
        assert(bit_reversed(203) == 211);
        assert(zeta_table(203) == 6987258);
    } else if k == 204 {
        lemma_root_powers_3();
        assert(bit_reversed(204) == 51);
        assert(zeta_table(204) == 507927);
    } else if k == 205 {
        lemma_root_powers_11();
        assert(bit_reversed(205) == 179);
        assert(zeta_table(205) == 7192532);
    } else if k == 206 {
        lemma_root_powers_7();
        assert(bit_reversed(206) == 115);
        assert(zeta_table(206) == 7655613);
    } else if k == 207 {
        lemma_root_powers_15();
        assert(bit_reversed(207) == 243);
        assert(zeta_table(207) == 6545891);
    }
}

proof fn lemma_table_root_26(k: int)
    requires
        208 <= k < 216,
    ensures
        zeta_table(k) == root_power(bit_reversed(k) as nat),
{
    if k == 208 {
        lemma_root_powers_0();
        assert(bit_reversed(208) == 11);
        assert(zeta_table(208) == 5346675);
    } else if k == 209 {
        lemma_root_powers_8();
        assert(bit_reversed(209) == 139);
        assert(zeta_table(209) == 8041997);
    } else if k == 210 {
        lemma_root_powers_4();
        assert(bit_reversed(210) == 75);
        assert(zeta_table(210) == 2647994);
    } else if k == 211 {
        lemma_root_powers_12();
        assert(bit_reversed(211) == 203);
        assert(zeta_table(211) == 3009748);
    } else if k == 212 {
        lemma_root_powers_2();
        assert(bit_reversed(212) == 43);
        assert(zeta_table(212) == 5767564);
    } else if k == 213 {
        lemma_root_powers_10();
        assert(bit_reversed(213) == 171);
        assert(zeta_table(213) == 4148469);
    } else if k == 214 {
        lemma_root_powers_6();
        assert(bit_reversed(214) == 107);
        assert(zeta_table(214) == 749577);
    } else if k == 215 {
        lemma_root_powers_14();
        assert(bit_reversed(215) == 235);
        assert(zeta_table(215) == 4357667);
    }
}

proof fn lemma_table_root_27(k: int)
    requires
        216 <= k < 224,
    ensures
        zeta_table(k) == root_power(bit_reversed(k) as nat),
{
    if k == 216 {
        lemma_root_powers_1();
        assert(bit_reversed(216) == 27);
        assert(zeta_table(216) == 3980599);
    } else if k == 217 {
        lemma_root_powers_9();
        assert(bit_reversed(217) == 155);
        assert(zeta_table(217) == 2569011);
    } else if k == 218 {
        lemma_root_powers_5();
        assert(bit_reversed(218) == 91);
        assert(zeta_table(218) == 6764887);
    } else if k == 219 {
        lemma_root_powers_13();
        assert(bit_reversed(219) == 219);
        assert(zeta_table(219) == 1723229);
    } else if k == 220 {
        lemma_root_powers_3();
        assert(bit_reversed(220) == 59);
        assert(zeta_table(220) == 1665318);
    } else if k == 221 {
        lemma_root_powers_11();
        assert(bit_reversed(221) == 187);
        assert(zeta_table(221) == 2028038);
    } else if k == 222 {
        lemma_root_powers_7();
        assert(bit_reversed(222) == 123);
        assert(zeta_table(222) == 1163598);
    } else if k == 223 {
        lemma_root_powers_15();
        assert(bit_reversed(223) == 251);
        assert(zeta_table(223) == 5011144);
    }
}

proof fn lemma_table_root_28(k: int)
    requires
        224 <= k < 232,
    ensures
        zeta_table(k) == root_power(bit_reversed(k) as nat),
{
    if k == 224 {
        lemma_root_powers_0();
        assert(bit_reversed(224) == 7);
        assert(zeta_table(224) == 3994671);
    } else if k == 225 {
        lemma_root_powers_8();
        assert(bit_reversed(225) == 135);
        assert(zeta_table(225) == 8368538);
    } else if k == 226 {
        lemma_root_powers_4();
        assert(bit_reversed(226) == 71);
        assert(zeta_table(226) == 7009900);
    } else if k == 227 {
        lemma_root_powers_12();
        assert(bit_reversed(227) == 199);
        assert(zeta_table(227) == 3020393);
    } else if k == 228 {
        lemma_root_powers_2();
        assert(bit_reversed(228) == 39);
        assert(zeta_table(228) == 3363542);
    } else if k == 229 {
        lemma_root_powers_10();
        assert(bit_reversed(229) == 167);
        assert(zeta_table(229) == 214880);
    } else if k == 230 {
        lemma_root_powers_6();
        assert(bit_reversed(230) == 103);
        assert(zeta_table(230) == 545376);
    } else if k == 231 {
        lemma_root_powers_14();
        assert(bit_reversed(231) == 231);
        assert(zeta_table(231) == 7609976);
    }
}

proof fn lemma_table_root_29(k: int)
    requires
        232 <= k < 240,
    ensures
        zeta_table(k) == root_power(bit_reversed(k) as nat),
{
    if k == 232 {
        lemma_root_powers_1();
        assert(bit_reversed(232) == 23);
        assert(zeta_table(232) == 3105558);
    } else if k == 233 {
        lemma_root_powers_9();
        assert(bit_reversed(233) == 151);
        assert(zeta_table(233) == 7277073);
    } else if k == 234 {
        lemma_root_powers_5();
        assert(bit_reversed(234) == 87);
        assert(zeta_table(234) == 508145);
    } else if k == 235 {
        lemma_root_powers_13();
        assert(bit_reversed(235) == 215);
        assert(zeta_table(235) == 7826699);
    } else if k == 236 {
        lemma_root_powers_3();
        assert(bit_reversed(236) == 55);
        assert(zeta_table(236) == 860144);
    } else if k == 237 {
        lemma_root_powers_11();
        assert(bit_reversed(237) == 183);
        assert(zeta_table(237) == 3430436);
    } else if k == 238 {
        lemma_root_powers_7();
        assert(bit_reversed(238) == 119);
        assert(zeta_table(238) == 140244);
    } else if k == 239 {
        lemma_root_powers_15();
        assert(bit_reversed(239) == 247);
        assert(zeta_table(239) == 6866265);
    }
}

proof fn lemma_table_root_30(k: int)
    requires
        240 <= k < 248,
    ensures
        zeta_table(k) == root_power(bit_reversed(k) as nat),
{
    if k == 240 {
        lemma_root_powers_0();
        assert(bit_reversed(240) == 15);
        assert(zeta_table(240) == 6195333);
    } else if k == 241 {
        lemma_root_powers_8();
        assert(bit_reversed(241) == 143);
        assert(zeta_table(241) == 3123762);
    } else if k == 242 {
        lemma_root_powers_4();
        assert(bit_reversed(242) == 79);
        assert(zeta_table(242) == 2358373);
    } else if k == 243 {
        lemma_root_powers_12();
        assert(bit_reversed(243) == 207);
        assert(zeta_table(243) == 6187330);
    } else if k == 244 {
        lemma_root_powers_2();
        assert(bit_reversed(244) == 47);
        assert(zeta_table(244) == 5365997);
    } else if k == 245 {
        lemma_root_powers_10();
        assert(bit_reversed(245) == 175);
        assert(zeta_table(245) == 6663603);
    } else if k == 246 {
        lemma_root_powers_6();
        assert(bit_reversed(246) == 111);
        assert(zeta_table(246) == 2926054);
    } else if k == 247 {
        lemma_root_powers_14();
        assert(bit_reversed(247) == 239);
        assert(zeta_table(247) == 7987710);
    }
}

proof fn lemma_table_root_31(k: int)
    requires
        248 <= k < 256,
    ensures
        zeta_table(k) == root_power(bit_reversed(k) as nat),
{
    if k == 248 {
        lemma_root_powers_1();
        assert(bit_reversed(248) == 31);
        assert(zeta_table(248) == 8077412);
    } else if k == 249 {
        lemma_root_powers_9();
        assert(bit_reversed(249) == 159);
        assert(zeta_table(249) == 3531229);
    } else if k == 250 {
        lemma_root_powers_5();
        assert(bit_reversed(250) == 95);
        assert(zeta_table(250) == 4405932);
    } else if k == 251 {
        lemma_root_powers_13();
        assert(bit_reversed(251) == 223);
        assert(zeta_table(251) == 4606686);
    } else if k == 252 {
        lemma_root_powers_3();
        assert(bit_reversed(252) == 63);
        assert(zeta_table(252) == 1900052);
    } else if k == 253 {
        lemma_root_powers_11();
        assert(bit_reversed(253) == 191);
        assert(zeta_table(253) == 7598542);
    } else if k == 254 {
        lemma_root_powers_7();
        assert(bit_reversed(254) == 127);
        assert(zeta_table(254) == 1054478);
    } else if k == 255 {
        lemma_root_powers_15();
        assert(bit_reversed(255) == 255);
        assert(zeta_table(255) == 7648983);
    }
}

/// The table holds the powers of the root of unity in bit-reversed order:
/// entry `k` is 1753 to the power of `k` with its eight bits reversed.
pub proof fn lemma_table_root(k: int)
    requires
        1 <= k < 256,
    ensures
        zeta_table(k) == root_power(bit_reversed(k) as nat),
{
    if k < 8 {
        lemma_table_root_0(k);
    } else if k < 16 {
        lemma_table_root_1(k);
    } else if k < 24 {
        lemma_table_root_2(k);
    } else if k < 32 {
        lemma_table_root_3(k);
    } else if k < 40 {
        lemma_table_root_4(k);
    } else if k < 48 {
        lemma_table_root_5(k);
    } else if k < 56 {
        lemma_table_root_6(k);
    } else if k < 64 {
        lemma_table_root_7(k);
    } else if k < 72 {
        lemma_table_root_8(k);
    } else if k < 80 {
        lemma_table_root_9(k);
    } else if k < 88 {
        lemma_table_root_10(k);
    } else if k < 96 {
        lemma_table_root_11(k);
    } else if k < 104 {
        lemma_table_root_12(k);
    } else if k < 112 {
        lemma_table_root_13(k);
    } else if k < 120 {
        lemma_table_root_14(k);
    } else if k < 128 {
        lemma_table_root_15(k);
    } else if k < 136 {
        lemma_table_root_16(k);
    } else if k < 144 {
        lemma_table_root_17(k);
    } else if k < 152 {
        lemma_table_root_18(k);
    } else if k < 160 {
        lemma_table_root_19(k);
    } else if k < 168 {
        lemma_table_root_20(k);
    } else if k < 176 {
        lemma_table_root_21(k);
    } else if k < 184 {
        lemma_table_root_22(k);
    } else if k < 192 {
        lemma_table_root_23(k);
    } else if k < 200 {
        lemma_table_root_24(k);
    } else if k < 208 {
        lemma_table_root_25(k);
    } else if k < 216 {
        lemma_table_root_26(k);
    } else if k < 224 {
        lemma_table_root_27(k);
    } else if k < 232 {
        lemma_table_root_28(k);
    } else if k < 240 {
        lemma_table_root_29(k);
    } else if k < 248 {
        lemma_table_root_30(k);
    } else if k < 256 {
        lemma_table_root_31(k);
    }
}

} // verus!
