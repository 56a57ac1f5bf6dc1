//! Roots of unity modulo the two primes.

use vstd::arithmetic::div_mod::*;
use vstd::arithmetic::power::*;
use vstd::prelude::*;

use crate::modular::{lemma_mod_eq_iff, lemma_mod_idem, lemma_mod_mul, lemma_mod_pow, lemma_mod_small};

verus! {

/// The first modulus.
pub const P1: u64 = 2147473409;

/// The second modulus.
pub const P2: u64 = 2147389441;

/// `p` is one of the two moduli.
pub open spec fn is_modulus(p: int) -> bool {
    p == P1 || p == P2
}

/// `x` to the power `(p - 1) / 2n`: the candidate root of unity that `x` gives.
pub open spec fn root_candidate(x: int, p: int) -> int {
    pow(x, ((p - 1) / 1024) as nat) % p
}

/// The candidate that `x` gives has order exactly `2n`: its `n`-th power is `-1`.
pub open spec fn gives_root(x: int, p: int) -> bool {
    pow(root_candidate(x, p), 512) % p == p - 1
}

/// The least base from two on that gives a root of order `2n`.
pub open spec fn root_base(p: int) -> int {
    if p == P1 {
        3
    } else {
        11
    }
}

/// The primitive `2n`-th root of unity that the transforms use.
pub open spec fn root(p: int) -> int {
    if p == P1 {
        2094155704
    } else {
        1133102181
    }
}

/// One step of repeated squaring.
proof fn lemma_pow_step(b: int, e: nat, v: int, bit: nat, w: int, p: int)
    requires
        p > 1,
        bit <= 1,
        pow(b, e) % p == v % p,
        w == if bit == 1 {
            (b * ((v * v) % p)) % p
        } else {
            (v * v) % p
        },
    ensures
        pow(b, 2 * e + bit) % p == w % p,
{
    lemma_pow_adds(b, e, e);
    lemma_mod_mul(pow(b, e), v, pow(b, e), v, p);
    lemma_mod_idem(v * v, p);
    if bit == 1 {
        lemma_pow_adds(b, 1, 2 * e);
        lemma_pow1(b);
        lemma_mod_mul(b, b, pow(b, 2 * e), (v * v) % p, p);
        lemma_mod_idem(b * ((v * v) % p), p);
    }
}

/// Powers of 2 modulo the first modulus, by repeated squaring.
proof fn lemma_p1_base_2()
    ensures
        pow(2, 2097142) % 2147473409 == 317154262,
        pow(2, 1073736704) % 2147473409 == 1,
{
    let p: int = 2147473409;
    lemma_pow1(2);
    lemma_pow_step(2, 1, 2, 1, 8, p);
    lemma_pow_step(2, 3, 8, 1, 128, p);
    lemma_pow_step(2, 7, 128, 1, 32768, p);
    lemma_pow_step(2, 15, 32768, 1, 10239, p);
    lemma_pow_step(2, 31, 10239, 1, 209674242, p);
    lemma_pow_step(2, 63, 209674242, 1, 1206191555, p);
    lemma_pow_step(2, 127, 1206191555, 1, 721011584, p);
    lemma_pow_step(2, 255, 721011584, 1, 2114572205, p);
    lemma_pow_step(2, 511, 2114572205, 1, 984542473, p);
    lemma_pow_step(2, 1023, 984542473, 1, 1897019414, p);
    lemma_pow_step(2, 2047, 1897019414, 1, 654381599, p);
    lemma_pow_step(2, 4095, 654381599, 1, 1822720507, p);
    lemma_pow_step(2, 8191, 1822720507, 1, 2053067016, p);
    lemma_pow_step(2, 16383, 2053067016, 1, 982508672, p);
    lemma_pow_step(2, 32767, 982508672, 1, 1706225046, p);
    lemma_pow_step(2, 65535, 1706225046, 1, 1280035627, p);
    lemma_pow_step(2, 131071, 1280035627, 0, 543362271, p);
    lemma_pow_step(2, 262142, 543362271, 1, 1822363961, p);
    lemma_pow_step(2, 524285, 1822363961, 1, 1819131470, p);
    lemma_pow_step(2, 1048571, 1819131470, 0, 317154262, p);
    lemma_pow_step(2, 2097142, 317154262, 0, 351940518, p);
    lemma_pow_step(2, 4194284, 351940518, 0, 160247467, p);
    lemma_pow_step(2, 8388568, 160247467, 0, 2024642488, p);
    lemma_pow_step(2, 16777136, 2024642488, 0, 2090719438, p);
    lemma_pow_step(2, 33554272, 2090719438, 0, 678322469, p);
    lemma_pow_step(2, 67108544, 678322469, 0, 2061444982, p);
    lemma_pow_step(2, 134217088, 2061444982, 0, 1103295813, p);
    lemma_pow_step(2, 268434176, 1103295813, 0, 2147473408, p);
    lemma_pow_step(2, 536868352, 2147473408, 0, 1, p);
}

/// Powers of 3 modulo the first modulus, by repeated squaring.
proof fn lemma_p1_base_3()
    ensures
        pow(3, 2097142) % 2147473409 == 2094155704,
        pow(3, 1073736704) % 2147473409 == 2147473408,
{
    let p: int = 2147473409;
    lemma_pow1(3);
    lemma_pow_step(3, 1, 3, 1, 27, p);
    lemma_pow_step(3, 3, 27, 1, 2187, p);
    lemma_pow_step(3, 7, 2187, 1, 14348907, p);
    lemma_pow_step(3, 15, 14348907, 1, 2062073504, p);
    lemma_pow_step(3, 31, 2062073504, 1, 1573154207, p);
    lemma_pow_step(3, 63, 1573154207, 1, 917474222, p);
    lemma_pow_step(3, 127, 917474222, 1, 1618787604, p);
    lemma_pow_step(3, 255, 1618787604, 1, 1131743482, p);
    lemma_pow_step(3, 511, 1131743482, 1, 1572635105, p);
    lemma_pow_step(3, 1023, 1572635105, 1, 273543135, p);
    lemma_pow_step(3, 2047, 273543135, 1, 1495652493, p);
    lemma_pow_step(3, 4095, 1495652493, 1, 2104238538, p);
    lemma_pow_step(3, 8191, 2104238538, 1, 474035953, p);
    lemma_pow_step(3, 16383, 474035953, 1, 1544616705, p);
    lemma_pow_step(3, 32767, 1544616705, 1, 1609222842, p);
    lemma_pow_step(3, 65535, 1609222842, 1, 617402172, p);
    lemma_pow_step(3, 131071, 617402172, 0, 2025643643, p);
    lemma_pow_step(3, 262142, 2025643643, 1, 1060442888, p);
    lemma_pow_step(3, 524285, 1060442888, 1, 383167813, p);
    lemma_pow_step(3, 1048571, 383167813, 0, 2094155704, p);
    lemma_pow_step(3, 2097142, 2094155704, 0, 1759521232, p);
    lemma_pow_step(3, 4194284, 1759521232, 0, 151851426, p);
    lemma_pow_step(3, 8388568, 151851426, 0, 1221036673, p);
    lemma_pow_step(3, 16777136, 1221036673, 0, 1276384561, p);
    lemma_pow_step(3, 33554272, 1276384561, 0, 2027081968, p);
    lemma_pow_step(3, 67108544, 2027081968, 0, 21133924, p);
    lemma_pow_step(3, 134217088, 21133924, 0, 486666911, p);
    lemma_pow_step(3, 268434176, 486666911, 0, 1044177596, p);
    lemma_pow_step(3, 536868352, 1044177596, 0, 2147473408, p);
}

/// Powers of 2 modulo the second modulus, by repeated squaring.
proof fn lemma_p2_base_2()
    ensures
        pow(2, 2097060) % 2147389441 == 1520088123,
        pow(2, 1073694720) % 2147389441 == 1,
{
    let p: int = 2147389441;
    lemma_pow1(2);
    lemma_pow_step(2, 1, 2, 1, 8, p);
    lemma_pow_step(2, 3, 8, 1, 128, p);
    lemma_pow_step(2, 7, 128, 1, 32768, p);
    lemma_pow_step(2, 15, 32768, 1, 94207, p);
    lemma_pow_step(2, 31, 94207, 1, 570802170, p);
    lemma_pow_step(2, 63, 570802170, 1, 1897095115, p);
    lemma_pow_step(2, 127, 1897095115, 1, 923531115, p);
    lemma_pow_step(2, 255, 923531115, 1, 1090154966, p);
    lemma_pow_step(2, 511, 1090154966, 1, 1743824998, p);
    lemma_pow_step(2, 1023, 1743824998, 1, 1827321083, p);
    lemma_pow_step(2, 2047, 1827321083, 1, 296404922, p);
    lemma_pow_step(2, 4095, 296404922, 1, 1872356977, p);
    lemma_pow_step(2, 8191, 1872356977, 1, 473826002, p);
    lemma_pow_step(2, 16383, 473826002, 0, 205198099, p);
    lemma_pow_step(2, 32766, 205198099, 1, 1448600172, p);
    lemma_pow_step(2, 65533, 1448600172, 0, 230592899, p);
    lemma_pow_step(2, 131066, 230592899, 0, 1084162948, p);
    lemma_pow_step(2, 262132, 1084162948, 1, 1786550891, p);
    lemma_pow_step(2, 524265, 1786550891, 0, 2119766265, p);
    lemma_pow_step(2, 1048530, 2119766265, 0, 1520088123, p);
    lemma_pow_step(2, 2097060, 1520088123, 0, 1659401416, p);
    lemma_pow_step(2, 4194120, 1659401416, 0, 2065500042, p);
    lemma_pow_step(2, 8388240, 2065500042, 0, 1627447519, p);
    lemma_pow_step(2, 16776480, 1627447519, 0, 1942288915, p);
    lemma_pow_step(2, 33552960, 1942288915, 0, 437911524, p);
    lemma_pow_step(2, 67105920, 437911524, 0, 293846662, p);
    lemma_pow_step(2, 134211840, 293846662, 0, 1331437836, p);
    lemma_pow_step(2, 268423680, 1331437836, 0, 2147389440, p);
    lemma_pow_step(2, 536847360, 2147389440, 0, 1, p);
}

/// Powers of 3 modulo the second modulus, by repeated squaring.
proof fn lemma_p2_base_3()
    ensures
        pow(3, 2097060) % 2147389441 == 1486490187,
        pow(3, 1073694720) % 2147389441 == 1,
{
    let p: int = 2147389441;
    lemma_pow1(3);
    lemma_pow_step(3, 1, 3, 1, 27, p);
    lemma_pow_step(3, 3, 27, 1, 2187, p);
    lemma_pow_step(3, 7, 2187, 1, 14348907, p);
    lemma_pow_step(3, 15, 14348907, 1, 444864148, p);
    lemma_pow_step(3, 31, 444864148, 1, 2027523296, p);
    lemma_pow_step(3, 63, 2027523296, 1, 1742403121, p);
    lemma_pow_step(3, 127, 1742403121, 1, 706308350, p);
    lemma_pow_step(3, 255, 706308350, 1, 260654792, p);
    lemma_pow_step(3, 511, 260654792, 1, 1037161739, p);
    lemma_pow_step(3, 1023, 1037161739, 1, 1639564489, p);
    lemma_pow_step(3, 2047, 1639564489, 1, 414956113, p);
    lemma_pow_step(3, 4095, 414956113, 1, 627110933, p);
    lemma_pow_step(3, 8191, 627110933, 1, 456858465, p);
    lemma_pow_step(3, 16383, 456858465, 0, 157318977, p);
    lemma_pow_step(3, 32766, 157318977, 1, 727610793, p);
    lemma_pow_step(3, 65533, 727610793, 0, 294707855, p);
    lemma_pow_step(3, 131066, 294707855, 0, 1294890182, p);
    lemma_pow_step(3, 262132, 1294890182, 1, 12753395, p);
    lemma_pow_step(3, 524265, 12753395, 0, 1512985803, p);
    lemma_pow_step(3, 1048530, 1512985803, 0, 1486490187, p);
    lemma_pow_step(3, 2097060, 1486490187, 0, 899480093, p);
    lemma_pow_step(3, 4194120, 899480093, 0, 1669920534, p);
    lemma_pow_step(3, 8388240, 1669920534, 0, 779277975, p);
    lemma_pow_step(3, 16776480, 779277975, 0, 100469591, p);
    lemma_pow_step(3, 33552960, 100469591, 0, 1802923426, p);
    lemma_pow_step(3, 67105920, 1802923426, 0, 1668241987, p);
    lemma_pow_step(3, 134211840, 1668241987, 0, 815951605, p);
    lemma_pow_step(3, 268423680, 815951605, 0, 2147389440, p);
    lemma_pow_step(3, 536847360, 2147389440, 0, 1, p);
}

/// Powers of 5 modulo the second modulus, by repeated squaring.
proof fn lemma_p2_base_5()
    ensures
        pow(5, 2097060) % 2147389441 == 180314764,
        pow(5, 1073694720) % 2147389441 == 1,
{
    let p: int = 2147389441;
    lemma_pow1(5);
    lemma_pow_step(5, 1, 5, 1, 125, p);
    lemma_pow_step(5, 3, 125, 1, 78125, p);
    lemma_pow_step(5, 7, 78125, 1, 454125951, p);
    lemma_pow_step(5, 15, 454125951, 1, 1887930461, p);
    lemma_pow_step(5, 31, 1887930461, 1, 972133391, p);
    lemma_pow_step(5, 63, 972133391, 1, 500446287, p);
    lemma_pow_step(5, 127, 500446287, 1, 746338418, p);
    lemma_pow_step(5, 255, 746338418, 1, 1039921865, p);
    lemma_pow_step(5, 511, 1039921865, 1, 18422005, p);
    lemma_pow_step(5, 1023, 18422005, 1, 1383937453, p);
    lemma_pow_step(5, 2047, 1383937453, 1, 836248088, p);
    lemma_pow_step(5, 4095, 836248088, 1, 1575960823, p);
    lemma_pow_step(5, 8191, 1575960823, 1, 558692497, p);
    lemma_pow_step(5, 16383, 558692497, 0, 878414533, p);
    lemma_pow_step(5, 32766, 878414533, 1, 634362630, p);
    lemma_pow_step(5, 65533, 634362630, 0, 1018138032, p);
    lemma_pow_step(5, 131066, 1018138032, 0, 1329385645, p);
    lemma_pow_step(5, 262132, 1329385645, 1, 73842437, p);
    lemma_pow_step(5, 524265, 73842437, 0, 548775744, p);
    lemma_pow_step(5, 1048530, 548775744, 0, 180314764, p);
    lemma_pow_step(5, 2097060, 180314764, 0, 1034359914, p);
    lemma_pow_step(5, 4194120, 1034359914, 0, 162462967, p);
    lemma_pow_step(5, 8388240, 162462967, 0, 1368111466, p);
    lemma_pow_step(5, 16776480, 1368111466, 0, 100469591, p);
    lemma_pow_step(5, 33552960, 100469591, 0, 1802923426, p);
    lemma_pow_step(5, 67105920, 1802923426, 0, 1668241987, p);
    lemma_pow_step(5, 134211840, 1668241987, 0, 815951605, p);
    lemma_pow_step(5, 268423680, 815951605, 0, 2147389440, p);
    lemma_pow_step(5, 536847360, 2147389440, 0, 1, p);
}

/// Powers of 7 modulo the second modulus, by repeated squaring.
proof fn lemma_p2_base_7()
    ensures
        pow(7, 2097060) % 2147389441 == 1332167262,
        pow(7, 1073694720) % 2147389441 == 1,
{
    let p: int = 2147389441;
    lemma_pow1(7);
    lemma_pow_step(7, 1, 7, 1, 343, p);
    lemma_pow_step(7, 3, 343, 1, 823543, p);
    lemma_pow_step(7, 7, 823543, 1, 1830845333, p);
    lemma_pow_step(7, 15, 1830845333, 1, 763991451, p);
    lemma_pow_step(7, 31, 763991451, 1, 2020193625, p);
    lemma_pow_step(7, 63, 2020193625, 1, 1987098513, p);
    lemma_pow_step(7, 127, 1987098513, 1, 627686214, p);
    lemma_pow_step(7, 255, 627686214, 1, 1380270252, p);
    lemma_pow_step(7, 511, 1380270252, 1, 609787500, p);
    lemma_pow_step(7, 1023, 609787500, 1, 443085303, p);
    lemma_pow_step(7, 2047, 443085303, 1, 2082627114, p);
    lemma_pow_step(7, 4095, 2082627114, 1, 257053621, p);
    lemma_pow_step(7, 8191, 257053621, 1, 523765993, p);
    lemma_pow_step(7, 16383, 523765993, 0, 1938837845, p);
    lemma_pow_step(7, 32766, 1938837845, 1, 608400824, p);
    lemma_pow_step(7, 65533, 608400824, 0, 1944822002, p);
    lemma_pow_step(7, 131066, 1944822002, 0, 123736059, p);
    lemma_pow_step(7, 262132, 123736059, 1, 991200062, p);
    lemma_pow_step(7, 524265, 991200062, 0, 1108080727, p);
    lemma_pow_step(7, 1048530, 1108080727, 0, 1332167262, p);
    lemma_pow_step(7, 2097060, 1332167262, 0, 678122413, p);
    lemma_pow_step(7, 4194120, 678122413, 0, 880693229, p);
    lemma_pow_step(7, 8388240, 880693229, 0, 205100526, p);
    lemma_pow_step(7, 16776480, 205100526, 0, 437911524, p);
    lemma_pow_step(7, 33552960, 437911524, 0, 293846662, p);
    lemma_pow_step(7, 67105920, 293846662, 0, 1331437836, p);
    lemma_pow_step(7, 134211840, 1331437836, 0, 2147389440, p);
    lemma_pow_step(7, 268423680, 2147389440, 0, 1, p);
    lemma_pow_step(7, 536847360, 1, 0, 1, p);
}

/// Powers of 11 modulo the second modulus, by repeated squaring.
proof fn lemma_p2_base_11()
    ensures
        pow(11, 2097060) % 2147389441 == 1133102181,
        pow(11, 1073694720) % 2147389441 == 2147389440,
{
    let p: int = 2147389441;
    lemma_pow1(11);
    lemma_pow_step(11, 1, 11, 1, 1331, p);
    lemma_pow_step(11, 3, 1331, 1, 19487171, p);
    lemma_pow_step(11, 7, 19487171, 1, 206300463, p);
    lemma_pow_step(11, 15, 206300463, 1, 1722012637, p);
    lemma_pow_step(11, 31, 1722012637, 1, 673019118, p);
    lemma_pow_step(11, 63, 673019118, 1, 246199772, p);
    lemma_pow_step(11, 127, 246199772, 1, 1592346999, p);
    lemma_pow_step(11, 255, 1592346999, 1, 1959815395, p);
    lemma_pow_step(11, 511, 1959815395, 1, 2012306120, p);
    lemma_pow_step(11, 1023, 2012306120, 1, 1637343595, p);
    lemma_pow_step(11, 2047, 1637343595, 1, 1458367525, p);
    lemma_pow_step(11, 4095, 1458367525, 1, 1254624644, p);
    lemma_pow_step(11, 8191, 1254624644, 1, 291111870, p);
    lemma_pow_step(11, 16383, 291111870, 0, 2129654262, p);
    lemma_pow_step(11, 32766, 2129654262, 1, 532380518, p);
    lemma_pow_step(11, 65533, 532380518, 0, 1150178214, p);
    lemma_pow_step(11, 131066, 1150178214, 0, 1338384113, p);
    lemma_pow_step(11, 262132, 1338384113, 1, 447825397, p);
    lemma_pow_step(11, 524265, 447825397, 0, 211808905, p);
    lemma_pow_step(11, 1048530, 211808905, 0, 1133102181, p);
    lemma_pow_step(11, 2097060, 1133102181, 0, 542980995, p);
    lemma_pow_step(11, 4194120, 542980995, 0, 151722968, p);
    lemma_pow_step(11, 8388240, 151722968, 0, 970638217, p);
    lemma_pow_step(11, 16776480, 970638217, 0, 2078701594, p);
    lemma_pow_step(11, 33552960, 2078701594, 0, 1721621514, p);
    lemma_pow_step(11, 67105920, 1721621514, 0, 1536760447, p);
    lemma_pow_step(11, 134211840, 1536760447, 0, 479147454, p);
    lemma_pow_step(11, 268423680, 479147454, 0, 815951605, p);
    lemma_pow_step(11, 536847360, 815951605, 0, 2147389440, p);
}


/// Whether a base gives a root of unity is decided by its `(p - 1) / 2`-th power.
proof fn lemma_gives_root(x: int, p: int)
    requires
        is_modulus(p),
    ensures
        gives_root(x, p) == (pow(x, ((p - 1) / 2) as nat) % p == p - 1),
{
    let r = ((p - 1) / 1024) as nat;
    lemma_mod_idem(pow(x, r), p);
    lemma_mod_pow(root_candidate(x, p), pow(x, r), 512, p);
    lemma_pow_multiplies(x, r, 512);
    assert(r * 512 == (p - 1) / 2);
}

/// A product of two bases that give no root gives none.
proof fn lemma_product_gives_no_root(x: int, y: int, p: int)
    requires
        is_modulus(p),
        pow(x, ((p - 1) / 2) as nat) % p == 1,
        pow(y, ((p - 1) / 2) as nat) % p == 1,
    ensures
        pow(x * y, ((p - 1) / 2) as nat) % p == 1,
{
    let e = ((p - 1) / 2) as nat;
    lemma_pow_distributes(x, y, e);
    lemma_mod_small(1, p);
    lemma_mod_mul(pow(x, e), 1, pow(y, e), 1, p);
}

/// The root of unity comes from the least base that gives one.
pub proof fn lemma_root_base(p: int)
    requires
        is_modulus(p),
    ensures
        root(p) == root_candidate(root_base(p), p),
        gives_root(root_base(p), p),
        forall|x: int| 2 <= x < root_base(p) ==> !#[trigger] gives_root(x, p),
{
    if p == P1 {
        lemma_p1_base_2();
        lemma_p1_base_3();
        lemma_gives_root(2, p);
        lemma_gives_root(3, p);
    } else {
        lemma_p2_base_2();
        lemma_p2_base_3();
        lemma_p2_base_5();
        lemma_p2_base_7();
        lemma_p2_base_11();
        lemma_product_gives_no_root(2, 2, p);
        lemma_product_gives_no_root(2, 3, p);
        lemma_product_gives_no_root(2, 4, p);
        lemma_product_gives_no_root(3, 3, p);
        lemma_product_gives_no_root(2, 5, p);
        assert forall|x: int| 2 <= x < 11 implies !#[trigger] gives_root(x, p) by {
            lemma_gives_root(x, p);
        }
        lemma_gives_root(11, p);
    }
}

/// The root of unity has order exactly `2n`: its `n`-th power is `-1`.
pub proof fn lemma_root_order(p: int)
    requires
        is_modulus(p),
    ensures
        pow(root(p), 512) % p == p - 1,
        pow(root(p), 1024) % p == 1,
{
    lemma_root_base(p);
    lemma_pow_adds(root(p), 512, 512);
    let v = pow(root(p), 512);
    lemma_mod_small(p - 1, p);
    lemma_mod_eq_iff(-1, p - 1, p);
    lemma_mod_self_0(p);
    lemma_mod_eq_iff(p - 1, -1, p);
    assert(p - 1 - (-1) == p);
    lemma_mod_mul(v, -1, v, -1, p);
    lemma_mod_small(1, p);
}

} // verus!
