//! The roots of unity that the fixed-point transforms use.

use vstd::prelude::*;

verus! {

/// Entry `i` holds the complex number `e^(i pi rev(i) / n)`, where `rev` reverses
/// nine bits, scaled by `2^31` and rounded up. The first two entries are never
/// used: their value would not fit.
pub const DELTA: [(i32, i32); 512] = [
    (0, 0), (0, 0),
    (1518500250, 1518500250), (-1518500249, 1518500250),
    (1984016189, 821806414), (-821806413, 1984016189),
    (821806414, 1984016189), (-1984016188, 821806414),
    (2106220352, 418953277), (-418953276, 2106220352),
    (1193077991, 1785567397), (-1785567396, 1193077991),
    (1785567397, 1193077991), (-1193077990, 1785567397),
    (418953277, 2106220352), (-2106220351, 418953277),
    (2137142928, 210490207), (-210490206, 2137142928),
    (1362349205, 1660027309), (-1660027308, 1362349205),
    (1893911495, 1012316785), (-1012316784, 1893911495),
    (623381598, 2055013724), (-2055013723, 623381598),
    (2055013724, 623381598), (-623381597, 2055013724),
    (1012316785, 1893911495), (-1893911494, 1012316785),
    (1660027309, 1362349205), (-1362349204, 1660027309),
    (210490207, 2137142928), (-2137142927, 210490207),
    (2144896910, 105372029), (-105372028, 2144896910),
    (1442161875, 1591180426), (-1591180425, 1442161875),
    (1941302225, 918167572), (-918167571, 1941302225),
    (723465452, 2021950484), (-2021950483, 723465452),
    (2083126255, 521795964), (-521795963, 2083126255),
    (1104027237, 1841958165), (-1841958164, 1104027237),
    (1724875040, 1279254516), (-1279254515, 1724875040),
    (315101295, 2124240381), (-2124240380, 315101295),
    (2124240381, 315101295), (-315101294, 2124240381),
    (1279254516, 1724875040), (-1724875039, 1279254516),
    (1841958165, 1104027237), (-1104027236, 1841958165),
    (521795964, 2083126255), (-2083126254, 521795964),
    (2021950484, 723465452), (-723465451, 2021950484),
    (918167572, 1941302225), (-1941302224, 918167572),
    (1591180426, 1442161875), (-1442161874, 1591180426),
    (105372029, 2144896910), (-2144896909, 105372029),
    (2146836867, 52701887), (-52701886, 2146836867),
    (1480777045, 1555308768), (-1555308767, 1480777045),
    (1963250502, 870249096), (-870249095, 1963250502),
    (772868706, 2003586780), (-2003586779, 772868706),
    (2095304370, 470516331), (-470516330, 2095304370),
    (1148898641, 1814309217), (-1814309216, 1148898641),
    (1755750018, 1236538676), (-1236538675, 1755750018),
    (367137861, 2115867626), (-2115867625, 367137861),
    (2131333572, 262874924), (-262874923, 2131333572),
    (1321199781, 1692961063), (-1692961062, 1321199781),
    (1868497586, 1058490808), (-1058490807, 1868497586),
    (572761286, 2069693342), (-2069693341, 572761286),
    (2039096242, 673626409), (-673626408, 2039096242),
    (965532979, 1918184581), (-1918184580, 965532979),
    (1626093616, 1402678000), (-1402677999, 1626093616),
    (157978698, 2141664949), (-2141664948, 157978698),
    (2141664949, 157978698), (-157978697, 2141664949),
    (1402678000, 1626093616), (-1626093615, 1402678000),
    (1918184581, 965532979), (-965532978, 1918184581),
    (673626409, 2039096242), (-2039096241, 673626409),
    (2069693342, 572761286), (-572761285, 2069693342),
    (1058490808, 1868497586), (-1868497585, 1058490808),
    (1692961063, 1321199781), (-1321199780, 1692961063),
    (262874924, 2131333572), (-2131333571, 262874924),
    (2115867626, 367137861), (-367137860, 2115867626),
    (1236538676, 1755750018), (-1755750017, 1236538676),
    (1814309217, 1148898641), (-1148898640, 1814309217),
    (470516331, 2095304370), (-2095304369, 470516331),
    (2003586780, 772868706), (-772868705, 2003586780),
    (870249096, 1963250502), (-1963250501, 870249096),
    (1555308768, 1480777045), (-1480777044, 1555308768),
    (52701887, 2146836867), (-2146836866, 52701887),
    (2147321947, 26352928), (-26352927, 2147321947),
    (1499751576, 1537020244), (-1537020243, 1499751576),
    (1973781968, 846091464), (-846091463, 1973781968),
    (797397603, 1993951625), (-1993951624, 797397603),
    (2100920557, 444768294), (-444768293, 2100920557),
    (1171076496, 1800073849), (-1800073848, 1171076496),
    (1770792045, 1214899813), (-1214899812, 1770792045),
    (393075167, 2111202959), (-2111202958, 393075167),
    (2134398966, 236700388), (-236700387, 2134398966),
    (1341875534, 1676620432), (-1676620431, 1341875534),
    (1881346202, 1035481766), (-1035481765, 1881346202),
    (598116479, 2062508836), (-2062508835, 598116479),
    (2047209134, 648552838), (-648552837, 2047209134),
    (988999352, 1906191571), (-1906191570, 988999352),
    (1643184191, 1382617711), (-1382617710, 1643184191),
    (184248326, 2139565043), (-2139565042, 184248326),
    (2143442327, 131685279), (-131685278, 2143442327),
    (1422527051, 1608758158), (-1608758157, 1422527051),
    (1929888720, 941921201), (-941921200, 1929888720),
    (698598533, 2030676269), (-2030676268, 698598533),
    (2076566160, 547319837), (-547319836, 2076566160),
    (1081340446, 1855367581), (-1855367580, 1081340446),
    (1709046740, 1300325061), (-1300325060, 1709046740),
    (289009871, 2127947207), (-2127947206, 289009871),
    (2120213652, 341145266), (-341145265, 2120213652),
    (1257991320, 1740443581), (-1740443580, 1257991320),
    (1828271356, 1126547766), (-1126547765, 1828271356),
    (496193510, 2089372638), (-2089372637, 496193510),
    (2012920201, 748223419), (-748223418, 2012920201),
    (894275671, 1952423377), (-1952423376, 894275671),
    (1573363069, 1461579514), (-1461579513, 1573363069),
    (79042910, 2146028480), (-2146028479, 79042910),
    (2146028480, 79042910), (-79042909, 2146028480),
    (1461579514, 1573363069), (-1573363068, 1461579514),
    (1952423377, 894275671), (-894275670, 1952423377),
    (748223419, 2012920201), (-2012920200, 748223419),
    (2089372638, 496193510), (-496193509, 2089372638),
    (1126547766, 1828271356), (-1828271355, 1126547766),
    (1740443581, 1257991320), (-1257991319, 1740443581),
    (341145266, 2120213652), (-2120213651, 341145266),
    (2127947207, 289009871), (-289009870, 2127947207),
    (1300325061, 1709046740), (-1709046739, 1300325061),
    (1855367581, 1081340446), (-1081340445, 1855367581),
    (547319837, 2076566160), (-2076566159, 547319837),
    (2030676269, 698598533), (-698598532, 2030676269),
    (941921201, 1929888720), (-1929888719, 941921201),
    (1608758158, 1422527051), (-1422527050, 1608758158),
    (131685279, 2143442327), (-2143442326, 131685279),
    (2139565043, 184248326), (-184248325, 2139565043),
    (1382617711, 1643184191), (-1643184190, 1382617711),
    (1906191571, 988999352), (-988999351, 1906191571),
    (648552838, 2047209134), (-2047209133, 648552838),
    (2062508836, 598116479), (-598116478, 2062508836),
    (1035481766, 1881346202), (-1881346201, 1035481766),
    (1676620432, 1341875534), (-1341875533, 1676620432),
    (236700388, 2134398966), (-2134398965, 236700388),
    (2111202959, 393075167), (-393075166, 2111202959),
    (1214899813, 1770792045), (-1770792044, 1214899813),
    (1800073849, 1171076496), (-1171076495, 1800073849),
    (444768294, 2100920557), (-2100920556, 444768294),
    (1993951625, 797397603), (-797397602, 1993951625),
    (846091464, 1973781968), (-1973781967, 846091464),
    (1537020244, 1499751576), (-1499751575, 1537020244),
    (26352928, 2147321947), (-2147321946, 26352928),
    (2147443223, 13176712), (-13176711, 2147443223),
    (1509154323, 1527789008), (-1527789007, 1509154323),
    (1978936331, 833964638), (-833964637, 1978936331),
    (809617249, 1989021350), (-1989021349, 809617249),
    (2103610054, 431868915), (-431868914, 2103610054),
    (1182099496, 1792854373), (-1792854372, 1182099496),
    (1778213195, 1204011567), (-1204011566, 1778213195),
    (406021865, 2108751352), (-2108751351, 406021865),
    (2135811153, 223599507), (-223599506, 2135811153),
    (1352137823, 1668355277), (-1668355276, 1352137823),
    (1887664383, 1023918550), (-1023918549, 1887664383),
    (610760536, 2058800036), (-2058800035, 610760536),
    (2051150041, 635979190), (-635979189, 2051150041),
    (1000676906, 1900087301), (-1900087300, 1000676906),
    (1651636842, 1372509295), (-1372509294, 1651636842),
    (197372982, 2138394240), (-2138394239, 197372982),
    (2144209983, 118530885), (-118530884, 2144209983),
    (1432371427, 1599999412), (-1599999411, 1432371427),
    (1935631911, 930061895), (-930061894, 1935631911),
    (711045378, 2026351522), (-2026351521, 711045378),
    (2079885361, 534567963), (-534567962, 2079885361),
    (1092704411, 1848697674), (-1848697673, 1092704411),
    (1716993212, 1289814069), (-1289814068, 1716993212),
    (302061269, 2126133818), (-2126133817, 302061269),
    (2122266967, 328129457), (-328129456, 2122266967),
    (1268646800, 1732691928), (-1732691927, 1268646800),
    (1835149307, 1115308497), (-1115308496, 1835149307),
    (509004319, 2086288720), (-2086288719, 509004319),
    (2017473321, 735858288), (-735858287, 2017473321),
    (906238681, 1946899451), (-1946899450, 906238681),
    (1582301534, 1451898026), (-1451898025, 1582301534),
    (92209205, 2145503084), (-2145503083, 92209205),
    (2146473080, 65873639), (-65873638, 2146473080),
    (1471205975, 1564365367), (-1564365366, 1471205975),
    (1957873796, 882278992), (-882278991, 1957873796),
    (760560380, 2008291296), (-2008291295, 760560380),
    (2092377893, 483364020), (-483364019, 2092377893),
    (1137744621, 1821324573), (-1821324572, 1137744621),
    (1748129707, 1247288478), (-1247288477, 1748129707),
    (354148230, 2118080511), (-2118080510, 354148230),
    (2129680480, 275947592), (-275947591, 2129680480),
    (1310787096, 1701035923), (-1701035922, 1310787096),
    (1861967635, 1069935768), (-1069935767, 1861967635),
    (560051104, 2073168778), (-2073168777, 560051104),
    (2034924562, 686125387), (-686125386, 2034924562),
    (953745044, 1924072871), (-1924072870, 953745044),
    (1617456335, 1412629118), (-1412629117, 1617456335),
    (144834715, 2142593971), (-2142593970, 144834715),
    (2140655293, 171116733), (-171116732, 2140655293),
    (1392674072, 1634669676), (-1634669675, 1392674072),
    (1912224073, 977284562), (-977284561, 1912224073),
    (661102069, 2043191150), (-2043191149, 661102069),
    (2066139984, 585449903), (-585449902, 2066139984),
    (1047005997, 1874957190), (-1874957189, 1047005997),
    (1684822464, 1331562724), (-1331562723, 1684822464),
    (249792358, 2132906420), (-2132906419, 249792358),
    (2113575080, 380113669), (-380113668, 2113575080),
    (1225742319, 1763304225), (-1763304224, 1225742319),
    (1807225553, 1160009405), (-1160009404, 1807225553),
    (457650928, 2098151960), (-2098151959, 457650928),
    (1998806830, 785147935), (-785147934, 1998806830),
    (858186435, 1968553292), (-1968553291, 858186435),
    (1546193613, 1490292365), (-1490292364, 1546193613),
    (39528152, 2147119826), (-2147119825, 39528152),
    (2147119826, 39528152), (-39528151, 2147119826),
    (1490292365, 1546193613), (-1546193612, 1490292365),
    (1968553292, 858186435), (-858186434, 1968553292),
    (785147935, 1998806830), (-1998806829, 785147935),
    (2098151960, 457650928), (-457650927, 2098151960),
    (1160009405, 1807225553), (-1807225552, 1160009405),
    (1763304225, 1225742319), (-1225742318, 1763304225),
    (380113669, 2113575080), (-2113575079, 380113669),
    (2132906420, 249792358), (-249792357, 2132906420),
    (1331562724, 1684822464), (-1684822463, 1331562724),
    (1874957190, 1047005997), (-1047005996, 1874957190),
    (585449903, 2066139984), (-2066139983, 585449903),
    (2043191150, 661102069), (-661102068, 2043191150),
    (977284562, 1912224073), (-1912224072, 977284562),
    (1634669676, 1392674072), (-1392674071, 1634669676),
    (171116733, 2140655293), (-2140655292, 171116733),
    (2142593971, 144834715), (-144834714, 2142593971),
    (1412629118, 1617456335), (-1617456334, 1412629118),
    (1924072871, 953745044), (-953745043, 1924072871),
    (686125387, 2034924562), (-2034924561, 686125387),
    (2073168778, 560051104), (-560051103, 2073168778),
    (1069935768, 1861967635), (-1861967634, 1069935768),
    (1701035923, 1310787096), (-1310787095, 1701035923),
    (275947592, 2129680480), (-2129680479, 275947592),
    (2118080511, 354148230), (-354148229, 2118080511),
    (1247288478, 1748129707), (-1748129706, 1247288478),
    (1821324573, 1137744621), (-1137744620, 1821324573),
    (483364020, 2092377893), (-2092377892, 483364020),
    (2008291296, 760560380), (-760560379, 2008291296),
    (882278992, 1957873796), (-1957873795, 882278992),
    (1564365367, 1471205975), (-1471205974, 1564365367),
    (65873639, 2146473080), (-2146473079, 65873639),
    (2145503084, 92209205), (-92209204, 2145503084),
    (1451898026, 1582301534), (-1582301533, 1451898026),
    (1946899451, 906238681), (-906238680, 1946899451),
    (735858288, 2017473321), (-2017473320, 735858288),
    (2086288720, 509004319), (-509004318, 2086288720),
    (1115308497, 1835149307), (-1835149306, 1115308497),
    (1732691928, 1268646800), (-1268646799, 1732691928),
    (328129457, 2122266967), (-2122266966, 328129457),
    (2126133818, 302061269), (-302061268, 2126133818),
    (1289814069, 1716993212), (-1716993211, 1289814069),
    (1848697674, 1092704411), (-1092704410, 1848697674),
    (534567963, 2079885361), (-2079885360, 534567963),
    (2026351522, 711045378), (-711045377, 2026351522),
    (930061895, 1935631911), (-1935631910, 930061895),
    (1599999412, 1432371427), (-1432371426, 1599999412),
    (118530885, 2144209983), (-2144209982, 118530885),
    (2138394240, 197372982), (-197372981, 2138394240),
    (1372509295, 1651636842), (-1651636841, 1372509295),
    (1900087301, 1000676906), (-1000676905, 1900087301),
    (635979190, 2051150041), (-2051150040, 635979190),
    (2058800036, 610760536), (-610760535, 2058800036),
    (1023918550, 1887664383), (-1887664382, 1023918550),
    (1668355277, 1352137823), (-1352137822, 1668355277),
    (223599507, 2135811153), (-2135811152, 223599507),
    (2108751352, 406021865), (-406021864, 2108751352),
    (1204011567, 1778213195), (-1778213194, 1204011567),
    (1792854373, 1182099496), (-1182099495, 1792854373),
    (431868915, 2103610054), (-2103610053, 431868915),
    (1989021350, 809617249), (-809617248, 1989021350),
    (833964638, 1978936331), (-1978936330, 833964638),
    (1527789008, 1509154323), (-1509154322, 1527789008),
    (13176712, 2147443223), (-2147443222, 13176712),
];

/// The real part of the root of unity at index `k`, scaled by `2^31`.
pub closed spec fn delta_re(k: int) -> int {
    DELTA@[k].0 as int
}

/// The imaginary part of the root of unity at index `k`, scaled by `2^31`.
pub closed spec fn delta_im(k: int) -> int {
    DELTA@[k].1 as int
}

/// The root of unity at index `k`, scaled by `2^31`.
pub fn delta(k: usize) -> (e: (i64, i64))
    requires
        k < 512,
    ensures
        e.0 == delta_re(k as int),
        e.1 == delta_im(k as int),
        -0x8000_0000 <= e.0 < 0x8000_0000,
        -0x8000_0000 <= e.1 < 0x8000_0000,
{
    let (re, im) = DELTA[k];
    (re as i64, im as i64)
}

/// The roots of unity are the entries of the table.
pub proof fn lemma_delta(k: int)
    requires
        0 <= k < 512,
    ensures
        delta_re(k) == DELTA@[k].0,
        delta_im(k) == DELTA@[k].1,
{
}

} // verus!
