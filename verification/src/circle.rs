//! The table of roots of unity holds roots of unity, up to rounding.

use vstd::prelude::*;

use crate::delta_table::{delta_im, delta_re, lemma_delta, DELTA};

verus! {

/// `(x, y)` lies on the circle of radius `2^31`, up to rounding, and its parts
/// add up to no more than those of a point on the diagonal.
pub open spec fn near_circle(x: int, y: int) -> bool {
    &&& 0x3fff_fffe_0000_0000 <= x * x + y * y <= 0x4000_0002_0000_0000
    &&& -3037000502 <= x + y <= 3037000502
    &&& -3037000502 <= x - y <= 3037000502
}

/// The square of `(x, y)` is `(a, b)`, as complex numbers scaled by `2^31` and
/// up to rounding.
pub open spec fn near_square(x: int, y: int, a: int, b: int) -> bool {
    &&& -0x2_0000_0000 <= x * x - y * y - 0x8000_0000 * a <= 0x2_0000_0000
    &&& -0x2_0000_0000 <= 2 * (x * y) - 0x8000_0000 * b <= 0x2_0000_0000
}

/// The entries of a pair: both lie on the circle, the second is `i` times the
/// first, and the first is the square root in the upper right quarter of the
/// entry at half their index, or of `i` for the first pair.
pub open spec fn root_pair(k: int) -> bool {
    let (x, y) = (delta_re(2 * k), delta_im(2 * k));
    &&& near_circle(x, y)
    &&& near_circle(delta_re(2 * k + 1), delta_im(2 * k + 1))
    &&& x > 0
    &&& y > 0
    &&& -y <= delta_re(2 * k + 1) <= 1 - y
    &&& delta_im(2 * k + 1) == x
    &&& if k == 1 {
        near_square(x, y, 0, 0x8000_0000)
    } else {
        near_square(x, y, delta_re(k), delta_im(k))
    }
}

/// The pairs from `a` on, `n` of them.
spec fn root_pairs(a: int, n: nat) -> bool
    decreases n,
{
    n == 0 || (root_pair(a) && root_pairs(a + 1, (n - 1) as nat))
}

/// Each of the pairs.
proof fn lemma_root_pairs(a: int, n: nat, k: int)
    requires
        root_pairs(a, n),
        a <= k < a + n,
    ensures
        root_pair(k),
    decreases n,
{
    if k > a {
        lemma_root_pairs(a + 1, (n - 1) as nat, k);
    }
}

/// The entries of a pair and the one that it is the root of, as numbers.
spec fn pair_is(k: int, x: int, y: int, v: int, a: int, b: int) -> bool {
    &&& DELTA@[2 * k].0 == x
    &&& DELTA@[2 * k].1 == y
    &&& DELTA@[2 * k + 1].0 == v
    &&& DELTA@[2 * k + 1].1 == x
    &&& k == 1 || (DELTA@[k].0 == a && DELTA@[k].1 == b)
    &&& near_circle(x, y)
    &&& near_circle(v, x)
    &&& near_square(x, y, a, b)
    &&& -y <= v <= 1 - y
    &&& x > 0 && y > 0
}

/// A pair with the numbers that it holds.
proof fn lemma_pair(k: int, x: int, y: int, v: int, a: int, b: int)
    requires
        1 <= k < 256,
        pair_is(k, x, y, v, a, b),
        k == 1 ==> a == 0 && b == 0x8000_0000,
    ensures
        root_pair(k),
{
    lemma_delta(2 * k);
    lemma_delta(2 * k + 1);
    lemma_delta(k);
}

/// Pairs 1 to 31.
proof fn lemma_pairs_from_1()
    ensures
        root_pairs(1, 31),
{
    lemma_pair(1, 1518500250, 1518500250, -1518500249, 0, 2147483648);
    lemma_pair(2, 1984016189, 821806414, -821806413, 1518500250, 1518500250);
    lemma_pair(3, 821806414, 1984016189, -1984016188, -1518500249, 1518500250);
    lemma_pair(4, 2106220352, 418953277, -418953276, 1984016189, 821806414);
    lemma_pair(5, 1193077991, 1785567397, -1785567396, -821806413, 1984016189);
    lemma_pair(6, 1785567397, 1193077991, -1193077990, 821806414, 1984016189);
    lemma_pair(7, 418953277, 2106220352, -2106220351, -1984016188, 821806414);
    lemma_pair(8, 2137142928, 210490207, -210490206, 2106220352, 418953277);
    lemma_pair(9, 1362349205, 1660027309, -1660027308, -418953276, 2106220352);
    lemma_pair(10, 1893911495, 1012316785, -1012316784, 1193077991, 1785567397);
    lemma_pair(11, 623381598, 2055013724, -2055013723, -1785567396, 1193077991);
    lemma_pair(12, 2055013724, 623381598, -623381597, 1785567397, 1193077991);
    lemma_pair(13, 1012316785, 1893911495, -1893911494, -1193077990, 1785567397);
    lemma_pair(14, 1660027309, 1362349205, -1362349204, 418953277, 2106220352);
    lemma_pair(15, 210490207, 2137142928, -2137142927, -2106220351, 418953277);
    lemma_pair(16, 2144896910, 105372029, -105372028, 2137142928, 210490207);
    lemma_pair(17, 1442161875, 1591180426, -1591180425, -210490206, 2137142928);
    lemma_pair(18, 1941302225, 918167572, -918167571, 1362349205, 1660027309);
    lemma_pair(19, 723465452, 2021950484, -2021950483, -1660027308, 1362349205);
    lemma_pair(20, 2083126255, 521795964, -521795963, 1893911495, 1012316785);
    lemma_pair(21, 1104027237, 1841958165, -1841958164, -1012316784, 1893911495);
    lemma_pair(22, 1724875040, 1279254516, -1279254515, 623381598, 2055013724);
    lemma_pair(23, 315101295, 2124240381, -2124240380, -2055013723, 623381598);
    lemma_pair(24, 2124240381, 315101295, -315101294, 2055013724, 623381598);
    lemma_pair(25, 1279254516, 1724875040, -1724875039, -623381597, 2055013724);
    lemma_pair(26, 1841958165, 1104027237, -1104027236, 1012316785, 1893911495);
    lemma_pair(27, 521795964, 2083126255, -2083126254, -1893911494, 1012316785);
    lemma_pair(28, 2021950484, 723465452, -723465451, 1660027309, 1362349205);
    lemma_pair(29, 918167572, 1941302225, -1941302224, -1362349204, 1660027309);
    lemma_pair(30, 1591180426, 1442161875, -1442161874, 210490207, 2137142928);
    lemma_pair(31, 105372029, 2144896910, -2144896909, -2137142927, 210490207);
    reveal_with_fuel(root_pairs, 32);
}

/// Pairs 32 to 63.
proof fn lemma_pairs_from_32()
    ensures
        root_pairs(32, 32),
{
    lemma_pair(32, 2146836867, 52701887, -52701886, 2144896910, 105372029);
    lemma_pair(33, 1480777045, 1555308768, -1555308767, -105372028, 2144896910);
    lemma_pair(34, 1963250502, 870249096, -870249095, 1442161875, 1591180426);
    lemma_pair(35, 772868706, 2003586780, -2003586779, -1591180425, 1442161875);
    lemma_pair(36, 2095304370, 470516331, -470516330, 1941302225, 918167572);
    lemma_pair(37, 1148898641, 1814309217, -1814309216, -918167571, 1941302225);
    lemma_pair(38, 1755750018, 1236538676, -1236538675, 723465452, 2021950484);
    lemma_pair(39, 367137861, 2115867626, -2115867625, -2021950483, 723465452);
    lemma_pair(40, 2131333572, 262874924, -262874923, 2083126255, 521795964);
    lemma_pair(41, 1321199781, 1692961063, -1692961062, -521795963, 2083126255);
    lemma_pair(42, 1868497586, 1058490808, -1058490807, 1104027237, 1841958165);
    lemma_pair(43, 572761286, 2069693342, -2069693341, -1841958164, 1104027237);
    lemma_pair(44, 2039096242, 673626409, -673626408, 1724875040, 1279254516);
    lemma_pair(45, 965532979, 1918184581, -1918184580, -1279254515, 1724875040);
    lemma_pair(46, 1626093616, 1402678000, -1402677999, 315101295, 2124240381);
    lemma_pair(47, 157978698, 2141664949, -2141664948, -2124240380, 315101295);
    lemma_pair(48, 2141664949, 157978698, -157978697, 2124240381, 315101295);
    lemma_pair(49, 1402678000, 1626093616, -1626093615, -315101294, 2124240381);
    lemma_pair(50, 1918184581, 965532979, -965532978, 1279254516, 1724875040);
    lemma_pair(51, 673626409, 2039096242, -2039096241, -1724875039, 1279254516);
    lemma_pair(52, 2069693342, 572761286, -572761285, 1841958165, 1104027237);
    lemma_pair(53, 1058490808, 1868497586, -1868497585, -1104027236, 1841958165);
    lemma_pair(54, 1692961063, 1321199781, -1321199780, 521795964, 2083126255);
    lemma_pair(55, 262874924, 2131333572, -2131333571, -2083126254, 521795964);
    lemma_pair(56, 2115867626, 367137861, -367137860, 2021950484, 723465452);
    lemma_pair(57, 1236538676, 1755750018, -1755750017, -723465451, 2021950484);
    lemma_pair(58, 1814309217, 1148898641, -1148898640, 918167572, 1941302225);
    lemma_pair(59, 470516331, 2095304370, -2095304369, -1941302224, 918167572);
    lemma_pair(60, 2003586780, 772868706, -772868705, 1591180426, 1442161875);
    lemma_pair(61, 870249096, 1963250502, -1963250501, -1442161874, 1591180426);
    lemma_pair(62, 1555308768, 1480777045, -1480777044, 105372029, 2144896910);
    lemma_pair(63, 52701887, 2146836867, -2146836866, -2144896909, 105372029);
    reveal_with_fuel(root_pairs, 33);
}

/// Pairs 64 to 95.
proof fn lemma_pairs_from_64()
    ensures
        root_pairs(64, 32),
{
    lemma_pair(64, 2147321947, 26352928, -26352927, 2146836867, 52701887);
    lemma_pair(65, 1499751576, 1537020244, -1537020243, -52701886, 2146836867);
    lemma_pair(66, 1973781968, 846091464, -846091463, 1480777045, 1555308768);
    lemma_pair(67, 797397603, 1993951625, -1993951624, -1555308767, 1480777045);
    lemma_pair(68, 2100920557, 444768294, -444768293, 1963250502, 870249096);
    lemma_pair(69, 1171076496, 1800073849, -1800073848, -870249095, 1963250502);
    lemma_pair(70, 1770792045, 1214899813, -1214899812, 772868706, 2003586780);
    lemma_pair(71, 393075167, 2111202959, -2111202958, -2003586779, 772868706);
    lemma_pair(72, 2134398966, 236700388, -236700387, 2095304370, 470516331);
    lemma_pair(73, 1341875534, 1676620432, -1676620431, -470516330, 2095304370);
    lemma_pair(74, 1881346202, 1035481766, -1035481765, 1148898641, 1814309217);
    lemma_pair(75, 598116479, 2062508836, -2062508835, -1814309216, 1148898641);
    lemma_pair(76, 2047209134, 648552838, -648552837, 1755750018, 1236538676);
    lemma_pair(77, 988999352, 1906191571, -1906191570, -1236538675, 1755750018);
    lemma_pair(78, 1643184191, 1382617711, -1382617710, 367137861, 2115867626);
    lemma_pair(79, 184248326, 2139565043, -2139565042, -2115867625, 367137861);
    lemma_pair(80, 2143442327, 131685279, -131685278, 2131333572, 262874924);
    lemma_pair(81, 1422527051, 1608758158, -1608758157, -262874923, 2131333572);
    lemma_pair(82, 1929888720, 941921201, -941921200, 1321199781, 1692961063);
    lemma_pair(83, 698598533, 2030676269, -2030676268, -1692961062, 1321199781);
    lemma_pair(84, 2076566160, 547319837, -547319836, 1868497586, 1058490808);
    lemma_pair(85, 1081340446, 1855367581, -1855367580, -1058490807, 1868497586);
    lemma_pair(86, 1709046740, 1300325061, -1300325060, 572761286, 2069693342);
    lemma_pair(87, 289009871, 2127947207, -2127947206, -2069693341, 572761286);
    lemma_pair(88, 2120213652, 341145266, -341145265, 2039096242, 673626409);
    lemma_pair(89, 1257991320, 1740443581, -1740443580, -673626408, 2039096242);
    lemma_pair(90, 1828271356, 1126547766, -1126547765, 965532979, 1918184581);
    lemma_pair(91, 496193510, 2089372638, -2089372637, -1918184580, 965532979);
    lemma_pair(92, 2012920201, 748223419, -748223418, 1626093616, 1402678000);
    lemma_pair(93, 894275671, 1952423377, -1952423376, -1402677999, 1626093616);
    lemma_pair(94, 1573363069, 1461579514, -1461579513, 157978698, 2141664949);
    lemma_pair(95, 79042910, 2146028480, -2146028479, -2141664948, 157978698);
    reveal_with_fuel(root_pairs, 33);
}

/// Pairs 96 to 127.
proof fn lemma_pairs_from_96()
    ensures
        root_pairs(96, 32),
{
    lemma_pair(96, 2146028480, 79042910, -79042909, 2141664949, 157978698);
    lemma_pair(97, 1461579514, 1573363069, -1573363068, -157978697, 2141664949);
    lemma_pair(98, 1952423377, 894275671, -894275670, 1402678000, 1626093616);
    lemma_pair(99, 748223419, 2012920201, -2012920200, -1626093615, 1402678000);
    lemma_pair(100, 2089372638, 496193510, -496193509, 1918184581, 965532979);
    lemma_pair(101, 1126547766, 1828271356, -1828271355, -965532978, 1918184581);
    lemma_pair(102, 1740443581, 1257991320, -1257991319, 673626409, 2039096242);
    lemma_pair(103, 341145266, 2120213652, -2120213651, -2039096241, 673626409);
    lemma_pair(104, 2127947207, 289009871, -289009870, 2069693342, 572761286);
    lemma_pair(105, 1300325061, 1709046740, -1709046739, -572761285, 2069693342);
    lemma_pair(106, 1855367581, 1081340446, -1081340445, 1058490808, 1868497586);
    lemma_pair(107, 547319837, 2076566160, -2076566159, -1868497585, 1058490808);
    lemma_pair(108, 2030676269, 698598533, -698598532, 1692961063, 1321199781);
    lemma_pair(109, 941921201, 1929888720, -1929888719, -1321199780, 1692961063);
    lemma_pair(110, 1608758158, 1422527051, -1422527050, 262874924, 2131333572);
    lemma_pair(111, 131685279, 2143442327, -2143442326, -2131333571, 262874924);
    lemma_pair(112, 2139565043, 184248326, -184248325, 2115867626, 367137861);
    lemma_pair(113, 1382617711, 1643184191, -1643184190, -367137860, 2115867626);
    lemma_pair(114, 1906191571, 988999352, -988999351, 1236538676, 1755750018);
    lemma_pair(115, 648552838, 2047209134, -2047209133, -1755750017, 1236538676);
    lemma_pair(116, 2062508836, 598116479, -598116478, 1814309217, 1148898641);
    lemma_pair(117, 1035481766, 1881346202, -1881346201, -1148898640, 1814309217);
    lemma_pair(118, 1676620432, 1341875534, -1341875533, 470516331, 2095304370);
    lemma_pair(119, 236700388, 2134398966, -2134398965, -2095304369, 470516331);
    lemma_pair(120, 2111202959, 393075167, -393075166, 2003586780, 772868706);
    lemma_pair(121, 1214899813, 1770792045, -1770792044, -772868705, 2003586780);
    lemma_pair(122, 1800073849, 1171076496, -1171076495, 870249096, 1963250502);
    lemma_pair(123, 444768294, 2100920557, -2100920556, -1963250501, 870249096);
    lemma_pair(124, 1993951625, 797397603, -797397602, 1555308768, 1480777045);
    lemma_pair(125, 846091464, 1973781968, -1973781967, -1480777044, 1555308768);
    lemma_pair(126, 1537020244, 1499751576, -1499751575, 52701887, 2146836867);
    lemma_pair(127, 26352928, 2147321947, -2147321946, -2146836866, 52701887);
    reveal_with_fuel(root_pairs, 33);
}

/// Pairs 128 to 159.
proof fn lemma_pairs_from_128()
    ensures
        root_pairs(128, 32),
{
    lemma_pair(128, 2147443223, 13176712, -13176711, 2147321947, 26352928);
    lemma_pair(129, 1509154323, 1527789008, -1527789007, -26352927, 2147321947);
    lemma_pair(130, 1978936331, 833964638, -833964637, 1499751576, 1537020244);
    lemma_pair(131, 809617249, 1989021350, -1989021349, -1537020243, 1499751576);
    lemma_pair(132, 2103610054, 431868915, -431868914, 1973781968, 846091464);
    lemma_pair(133, 1182099496, 1792854373, -1792854372, -846091463, 1973781968);
    lemma_pair(134, 1778213195, 1204011567, -1204011566, 797397603, 1993951625);
    lemma_pair(135, 406021865, 2108751352, -2108751351, -1993951624, 797397603);
    lemma_pair(136, 2135811153, 223599507, -223599506, 2100920557, 444768294);
    lemma_pair(137, 1352137823, 1668355277, -1668355276, -444768293, 2100920557);
    lemma_pair(138, 1887664383, 1023918550, -1023918549, 1171076496, 1800073849);
    lemma_pair(139, 610760536, 2058800036, -2058800035, -1800073848, 1171076496);
    lemma_pair(140, 2051150041, 635979190, -635979189, 1770792045, 1214899813);
    lemma_pair(141, 1000676906, 1900087301, -1900087300, -1214899812, 1770792045);
    lemma_pair(142, 1651636842, 1372509295, -1372509294, 393075167, 2111202959);
    lemma_pair(143, 197372982, 2138394240, -2138394239, -2111202958, 393075167);
    lemma_pair(144, 2144209983, 118530885, -118530884, 2134398966, 236700388);
    lemma_pair(145, 1432371427, 1599999412, -1599999411, -236700387, 2134398966);
    lemma_pair(146, 1935631911, 930061895, -930061894, 1341875534, 1676620432);
    lemma_pair(147, 711045378, 2026351522, -2026351521, -1676620431, 1341875534);
    lemma_pair(148, 2079885361, 534567963, -534567962, 1881346202, 1035481766);
    lemma_pair(149, 1092704411, 1848697674, -1848697673, -1035481765, 1881346202);
    lemma_pair(150, 1716993212, 1289814069, -1289814068, 598116479, 2062508836);
    lemma_pair(151, 302061269, 2126133818, -2126133817, -2062508835, 598116479);
    lemma_pair(152, 2122266967, 328129457, -328129456, 2047209134, 648552838);
    lemma_pair(153, 1268646800, 1732691928, -1732691927, -648552837, 2047209134);
    lemma_pair(154, 1835149307, 1115308497, -1115308496, 988999352, 1906191571);
    lemma_pair(155, 509004319, 2086288720, -2086288719, -1906191570, 988999352);
    lemma_pair(156, 2017473321, 735858288, -735858287, 1643184191, 1382617711);
    lemma_pair(157, 906238681, 1946899451, -1946899450, -1382617710, 1643184191);
    lemma_pair(158, 1582301534, 1451898026, -1451898025, 184248326, 2139565043);
    lemma_pair(159, 92209205, 2145503084, -2145503083, -2139565042, 184248326);
    reveal_with_fuel(root_pairs, 33);
}

/// Pairs 160 to 191.
proof fn lemma_pairs_from_160()
    ensures
        root_pairs(160, 32),
{
    lemma_pair(160, 2146473080, 65873639, -65873638, 2143442327, 131685279);
    lemma_pair(161, 1471205975, 1564365367, -1564365366, -131685278, 2143442327);
    lemma_pair(162, 1957873796, 882278992, -882278991, 1422527051, 1608758158);
    lemma_pair(163, 760560380, 2008291296, -2008291295, -1608758157, 1422527051);
    lemma_pair(164, 2092377893, 483364020, -483364019, 1929888720, 941921201);
    lemma_pair(165, 1137744621, 1821324573, -1821324572, -941921200, 1929888720);
    lemma_pair(166, 1748129707, 1247288478, -1247288477, 698598533, 2030676269);
    lemma_pair(167, 354148230, 2118080511, -2118080510, -2030676268, 698598533);
    lemma_pair(168, 2129680480, 275947592, -275947591, 2076566160, 547319837);
    lemma_pair(169, 1310787096, 1701035923, -1701035922, -547319836, 2076566160);
    lemma_pair(170, 1861967635, 1069935768, -1069935767, 1081340446, 1855367581);
    lemma_pair(171, 560051104, 2073168778, -2073168777, -1855367580, 1081340446);
    lemma_pair(172, 2034924562, 686125387, -686125386, 1709046740, 1300325061);
    lemma_pair(173, 953745044, 1924072871, -1924072870, -1300325060, 1709046740);
    lemma_pair(174, 1617456335, 1412629118, -1412629117, 289009871, 2127947207);
    lemma_pair(175, 144834715, 2142593971, -2142593970, -2127947206, 289009871);
    lemma_pair(176, 2140655293, 171116733, -171116732, 2120213652, 341145266);
    lemma_pair(177, 1392674072, 1634669676, -1634669675, -341145265, 2120213652);
    lemma_pair(178, 1912224073, 977284562, -977284561, 1257991320, 1740443581);
    lemma_pair(179, 661102069, 2043191150, -2043191149, -1740443580, 1257991320);
    lemma_pair(180, 2066139984, 585449903, -585449902, 1828271356, 1126547766);
    lemma_pair(181, 1047005997, 1874957190, -1874957189, -1126547765, 1828271356);
    lemma_pair(182, 1684822464, 1331562724, -1331562723, 496193510, 2089372638);
    lemma_pair(183, 249792358, 2132906420, -2132906419, -2089372637, 496193510);
    lemma_pair(184, 2113575080, 380113669, -380113668, 2012920201, 748223419);
    lemma_pair(185, 1225742319, 1763304225, -1763304224, -748223418, 2012920201);
    lemma_pair(186, 1807225553, 1160009405, -1160009404, 894275671, 1952423377);
    lemma_pair(187, 457650928, 2098151960, -2098151959, -1952423376, 894275671);
    lemma_pair(188, 1998806830, 785147935, -785147934, 1573363069, 1461579514);
    lemma_pair(189, 858186435, 1968553292, -1968553291, -1461579513, 1573363069);
    lemma_pair(190, 1546193613, 1490292365, -1490292364, 79042910, 2146028480);
    lemma_pair(191, 39528152, 2147119826, -2147119825, -2146028479, 79042910);
    reveal_with_fuel(root_pairs, 33);
}

/// Pairs 192 to 223.
proof fn lemma_pairs_from_192()
    ensures
        root_pairs(192, 32),
{
    lemma_pair(192, 2147119826, 39528152, -39528151, 2146028480, 79042910);
    lemma_pair(193, 1490292365, 1546193613, -1546193612, -79042909, 2146028480);
    lemma_pair(194, 1968553292, 858186435, -858186434, 1461579514, 1573363069);
    lemma_pair(195, 785147935, 1998806830, -1998806829, -1573363068, 1461579514);
    lemma_pair(196, 2098151960, 457650928, -457650927, 1952423377, 894275671);
    lemma_pair(197, 1160009405, 1807225553, -1807225552, -894275670, 1952423377);
    lemma_pair(198, 1763304225, 1225742319, -1225742318, 748223419, 2012920201);
    lemma_pair(199, 380113669, 2113575080, -2113575079, -2012920200, 748223419);
    lemma_pair(200, 2132906420, 249792358, -249792357, 2089372638, 496193510);
    lemma_pair(201, 1331562724, 1684822464, -1684822463, -496193509, 2089372638);
    lemma_pair(202, 1874957190, 1047005997, -1047005996, 1126547766, 1828271356);
    lemma_pair(203, 585449903, 2066139984, -2066139983, -1828271355, 1126547766);
    lemma_pair(204, 2043191150, 661102069, -661102068, 1740443581, 1257991320);
    lemma_pair(205, 977284562, 1912224073, -1912224072, -1257991319, 1740443581);
    lemma_pair(206, 1634669676, 1392674072, -1392674071, 341145266, 2120213652);
    lemma_pair(207, 171116733, 2140655293, -2140655292, -2120213651, 341145266);
    lemma_pair(208, 2142593971, 144834715, -144834714, 2127947207, 289009871);
    lemma_pair(209, 1412629118, 1617456335, -1617456334, -289009870, 2127947207);
    lemma_pair(210, 1924072871, 953745044, -953745043, 1300325061, 1709046740);
    lemma_pair(211, 686125387, 2034924562, -2034924561, -1709046739, 1300325061);
    lemma_pair(212, 2073168778, 560051104, -560051103, 1855367581, 1081340446);
    lemma_pair(213, 1069935768, 1861967635, -1861967634, -1081340445, 1855367581);
    lemma_pair(214, 1701035923, 1310787096, -1310787095, 547319837, 2076566160);
    lemma_pair(215, 275947592, 2129680480, -2129680479, -2076566159, 547319837);
    lemma_pair(216, 2118080511, 354148230, -354148229, 2030676269, 698598533);
    lemma_pair(217, 1247288478, 1748129707, -1748129706, -698598532, 2030676269);
    lemma_pair(218, 1821324573, 1137744621, -1137744620, 941921201, 1929888720);
    lemma_pair(219, 483364020, 2092377893, -2092377892, -1929888719, 941921201);
    lemma_pair(220, 2008291296, 760560380, -760560379, 1608758158, 1422527051);
    lemma_pair(221, 882278992, 1957873796, -1957873795, -1422527050, 1608758158);
    lemma_pair(222, 1564365367, 1471205975, -1471205974, 131685279, 2143442327);
    lemma_pair(223, 65873639, 2146473080, -2146473079, -2143442326, 131685279);
    reveal_with_fuel(root_pairs, 33);
}

/// Pairs 224 to 255.
proof fn lemma_pairs_from_224()
    ensures
        root_pairs(224, 32),
{
    lemma_pair(224, 2145503084, 92209205, -92209204, 2139565043, 184248326);
    lemma_pair(225, 1451898026, 1582301534, -1582301533, -184248325, 2139565043);
    lemma_pair(226, 1946899451, 906238681, -906238680, 1382617711, 1643184191);
    lemma_pair(227, 735858288, 2017473321, -2017473320, -1643184190, 1382617711);
    lemma_pair(228, 2086288720, 509004319, -509004318, 1906191571, 988999352);
    lemma_pair(229, 1115308497, 1835149307, -1835149306, -988999351, 1906191571);
    lemma_pair(230, 1732691928, 1268646800, -1268646799, 648552838, 2047209134);
    lemma_pair(231, 328129457, 2122266967, -2122266966, -2047209133, 648552838);
    lemma_pair(232, 2126133818, 302061269, -302061268, 2062508836, 598116479);
    lemma_pair(233, 1289814069, 1716993212, -1716993211, -598116478, 2062508836);
    lemma_pair(234, 1848697674, 1092704411, -1092704410, 1035481766, 1881346202);
    lemma_pair(235, 534567963, 2079885361, -2079885360, -1881346201, 1035481766);
    lemma_pair(236, 2026351522, 711045378, -711045377, 1676620432, 1341875534);
    lemma_pair(237, 930061895, 1935631911, -1935631910, -1341875533, 1676620432);
    lemma_pair(238, 1599999412, 1432371427, -1432371426, 236700388, 2134398966);
    lemma_pair(239, 118530885, 2144209983, -2144209982, -2134398965, 236700388);
    lemma_pair(240, 2138394240, 197372982, -197372981, 2111202959, 393075167);
    lemma_pair(241, 1372509295, 1651636842, -1651636841, -393075166, 2111202959);
    lemma_pair(242, 1900087301, 1000676906, -1000676905, 1214899813, 1770792045);
    lemma_pair(243, 635979190, 2051150041, -2051150040, -1770792044, 1214899813);
    lemma_pair(244, 2058800036, 610760536, -610760535, 1800073849, 1171076496);
    lemma_pair(245, 1023918550, 1887664383, -1887664382, -1171076495, 1800073849);
    lemma_pair(246, 1668355277, 1352137823, -1352137822, 444768294, 2100920557);
    lemma_pair(247, 223599507, 2135811153, -2135811152, -2100920556, 444768294);
    lemma_pair(248, 2108751352, 406021865, -406021864, 1993951625, 797397603);
    lemma_pair(249, 1204011567, 1778213195, -1778213194, -797397602, 1993951625);
    lemma_pair(250, 1792854373, 1182099496, -1182099495, 846091464, 1973781968);
    lemma_pair(251, 431868915, 2103610054, -2103610053, -1973781967, 846091464);
    lemma_pair(252, 1989021350, 809617249, -809617248, 1537020244, 1499751576);
    lemma_pair(253, 833964638, 1978936331, -1978936330, -1499751575, 1537020244);
    lemma_pair(254, 1527789008, 1509154323, -1509154322, 26352928, 2147321947);
    lemma_pair(255, 13176712, 2147443223, -2147443222, -2147321946, 26352928);
    reveal_with_fuel(root_pairs, 33);
}

/// Every pair of the table but the first is a pair of roots of unity.
pub proof fn lemma_root_pair(k: int)
    requires
        1 <= k < 256,
    ensures
        root_pair(k),
{
    if k < 32 {
        lemma_pairs_from_1();
        lemma_root_pairs(1, 31, k);
    } else if k < 64 {
        lemma_pairs_from_32();
        lemma_root_pairs(32, 32, k);
    } else if k < 96 {
        lemma_pairs_from_64();
        lemma_root_pairs(64, 32, k);
    } else if k < 128 {
        lemma_pairs_from_96();
        lemma_root_pairs(96, 32, k);
    } else if k < 160 {
        lemma_pairs_from_128();
        lemma_root_pairs(128, 32, k);
    } else if k < 192 {
        lemma_pairs_from_160();
        lemma_root_pairs(160, 32, k);
    } else if k < 224 {
        lemma_pairs_from_192();
        lemma_root_pairs(192, 32, k);
    } else {
        lemma_pairs_from_224();
        lemma_root_pairs(224, 32, k);
    }
}

} // verus!
