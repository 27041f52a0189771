use vstd::prelude::*;

verus! {

/// Whether `g1` steps and the root of `s1` together come to less than
/// `g2` steps and the root of `s2`, decided in whole numbers.
pub open spec fn estimate_less(g1: int, s1: int, g2: int, s2: int) -> bool {
    let d = g2 - g1;
    if d > 0 {
        let t = s1 - s2 - d * d;
        t < 0 || t * t < 4 * (d * d) * s2
    } else {
        let t = s2 - s1 - d * d;
        t > 0 && 4 * (d * d) * s1 < t * t
    }
}

/// The largest distance, squared, that `get_pathing_distance` gives on a map.
pub const MAX_DISTANCE_SQUARED: u64 = 0x7fff_fffe_0000_0002;

/// `estimate_less`, computed.
pub fn estimate_is_less(g1: u32, s1: u64, g2: u32, s2: u64) -> (less: bool)
    requires
        g1 <= i32::MAX,
        g2 <= i32::MAX,
        s1 <= MAX_DISTANCE_SQUARED,
        s2 <= MAX_DISTANCE_SQUARED,
    ensures
        less == estimate_less(g1 as int, s1 as int, g2 as int, s2 as int),
{
    let d: i128 = g2 as i128 - g1 as i128;
    assert(0 <= d * d <= 0x3fff_ffff_0000_0001) by (nonlinear_arith)
        requires
            -0x7fff_ffff <= d <= 0x7fff_ffff,
    ;
    let dd: i128 = d * d;
    if d > 0 {
        let t: i128 = s1 as i128 - s2 as i128 - dd;
        if t < 0 {
            return true;
        }
        assert(0 <= t * t <= 0x7fff_fffe_0000_0002 * 0x7fff_fffe_0000_0002) by (nonlinear_arith)
            requires
                0 <= t <= 0x7fff_fffe_0000_0002,
        ;
        assert(0 <= 4 * dd * s2 <= 4 * 0x3fff_ffff_0000_0001 * 0x7fff_fffe_0000_0002)
            by (nonlinear_arith)
            requires
                0 <= dd <= 0x3fff_ffff_0000_0001,
                0 <= s2 <= 0x7fff_fffe_0000_0002,
        ;
        t * t < 4 * dd * (s2 as i128)
    } else {
        let t: i128 = s2 as i128 - s1 as i128 - dd;
        if t <= 0 {
            return false;
        }
        assert(0 <= t * t <= 0x7fff_fffe_0000_0002 * 0x7fff_fffe_0000_0002) by (nonlinear_arith)
            requires
                0 <= t <= 0x7fff_fffe_0000_0002,
        ;
        assert(0 <= 4 * dd * s1 <= 4 * 0x3fff_ffff_0000_0001 * 0x7fff_fffe_0000_0002)
            by (nonlinear_arith)
            requires
                0 <= dd <= 0x3fff_ffff_0000_0001,
                0 <= s1 <= 0x7fff_fffe_0000_0002,
        ;
        4 * dd * (s1 as i128) < t * t
    }
}

/// The root of `s`, rounded down.
pub open spec fn floor_root(s: nat) -> nat
    decreases s,
{
    if s == 0 {
        0
    } else {
        let r = floor_root((s - 1) as nat);
        if (r + 1) * (r + 1) <= s {
            r + 1
        } else {
            r
        }
    }
}

/// `floor_root(s)` is the largest number whose square is at most `s`.
pub proof fn lemma_floor_root(s: nat)
    ensures
        floor_root(s) * floor_root(s) <= s < (floor_root(s) + 1) * (floor_root(s) + 1),
    decreases s,
{
    let f = floor_root(s) as int;
    if s > 0 {
        lemma_floor_root((s - 1) as nat);
        let r = floor_root((s - 1) as nat) as int;
        if (r + 1) * (r + 1) <= s {
            assert(f == r + 1);
            assert(s < (f + 1) * (f + 1)) by (nonlinear_arith)
                requires
                    s - 1 < (r + 1) * (r + 1),
                    r >= 0,
                    f == r + 1,
            ;
        } else {
            assert(f == r);
        }
    } else {
        assert(f == 0);
        assert(f * f == 0 && (f + 1) * (f + 1) == 1) by (nonlinear_arith)
            requires
                f == 0,
        ;
    }
    assert(f * f <= s < (f + 1) * (f + 1));
}

/// Where one estimate is less than another, so it is with both rounded
/// down; and where it is not less, it is not less rounded down either.
pub proof fn lemma_estimate_order_rounds(g1: int, s1: nat, g2: int, s2: nat)
    ensures
        estimate_less(g1, s1 as int, g2, s2 as int) ==> g1 + floor_root(s1) <= g2 + floor_root(s2),
        !estimate_less(g1, s1 as int, g2, s2 as int) ==> g2 + floor_root(s2) <= g1 + floor_root(
            s1,
        ),
{
    lemma_floor_root(s1);
    lemma_floor_root(s2);
    let r1 = floor_root(s1) as int;
    let r2 = floor_root(s2) as int;
    let d = g2 - g1;
    if estimate_less(g1, s1 as int, g2, s2 as int) {
        if r1 >= r2 + d + 1 {
            if d > 0 {
                let t = s1 - s2 - d * d;
                let b = 2 * d * (r2 + 1);
                assert(r1 * r1 >= (r2 + 1) * (r2 + 1) + b + d * d) by (nonlinear_arith)
                    requires
                        r1 >= r2 + d + 1,
                        r2 >= 0,
                        d > 0,
                        b == 2 * d * (r2 + 1),
                ;
                assert(b > 0) by (nonlinear_arith)
                    requires
                        b == 2 * d * (r2 + 1),
                        d > 0,
                        r2 >= 0,
                ;
                assert(t > b);
                assert(t * t > b * b) by (nonlinear_arith)
                    requires
                        t > b,
                        b > 0,
                ;
                assert(b * b == 4 * (d * d) * ((r2 + 1) * (r2 + 1))) by (nonlinear_arith)
                    requires
                        b == 2 * d * (r2 + 1),
                ;
                assert(4 * (d * d) * ((r2 + 1) * (r2 + 1)) >= 4 * (d * d) * s2) by (nonlinear_arith)
                    requires
                        (r2 + 1) * (r2 + 1) > s2,
                ;
                assert(false);
            } else {
                let e = -d;
                let t = s2 - s1 - d * d;
                let b = 2 * e * r1;
                assert(d * d == e * e) by (nonlinear_arith)
                    requires
                        e == -d,
                ;
                assert((r2 + 1) * (r2 + 1) <= r1 * r1 + b + e * e) by (nonlinear_arith)
                    requires
                        r1 + e >= r2 + 1,
                        r2 >= 0,
                        b == 2 * e * r1,
                ;
                assert(t < b);
                assert(b >= 0) by (nonlinear_arith)
                    requires
                        b == 2 * e * r1,
                        e >= 0,
                        r1 >= 0,
                ;
                assert(t * t < b * b) by (nonlinear_arith)
                    requires
                        0 < t < b,
                ;
                assert(b * b == 4 * (e * e) * (r1 * r1)) by (nonlinear_arith)
                    requires
                        b == 2 * e * r1,
                ;
                assert(4 * (e * e) * (r1 * r1) <= 4 * (e * e) * s1) by (nonlinear_arith)
                    requires
                        r1 * r1 <= s1,
                ;
                assert(false);
            }
        }
    } else {
        if r2 + d >= r1 + 1 {
            if d > 0 {
                let t = s1 - s2 - d * d;
                let b = 2 * d * r2;
                assert((r1 + 1) * (r1 + 1) <= r2 * r2 + b + d * d) by (nonlinear_arith)
                    requires
                        r2 + d >= r1 + 1,
                        r1 >= 0,
                        b == 2 * d * r2,
                ;
                assert(t < b);
                if t >= 0 {
                    assert(t * t < b * b) by (nonlinear_arith)
                        requires
                            0 <= t < b,
                    ;
                    assert(b * b == 4 * (d * d) * (r2 * r2)) by (nonlinear_arith)
                        requires
                            b == 2 * d * r2,
                    ;
                    assert(4 * (d * d) * (r2 * r2) <= 4 * (d * d) * s2) by (nonlinear_arith)
                        requires
                            r2 * r2 <= s2,
                    ;
                }
                assert(false);
            } else {
                let e = -d;
                let t = s2 - s1 - d * d;
                let b = 2 * e * (r1 + 1);
                assert(d * d == e * e) by (nonlinear_arith)
                    requires
                        e == -d,
                ;
                assert(r2 * r2 >= (r1 + 1) * (r1 + 1) + b + e * e) by (nonlinear_arith)
                    requires
                        r2 >= r1 + 1 + e,
                        r1 >= 0,
                        e >= 0,
                        b == 2 * e * (r1 + 1),
                ;
                assert(b >= 0) by (nonlinear_arith)
                    requires
                        b == 2 * e * (r1 + 1),
                        e >= 0,
                        r1 >= 0,
                ;
                assert(t > b);
                assert(t * t > b * b) by (nonlinear_arith)
                    requires
                        t > b,
                        b >= 0,
                ;
                assert(b * b == 4 * (e * e) * ((r1 + 1) * (r1 + 1))) by (nonlinear_arith)
                    requires
                        b == 2 * e * (r1 + 1),
                ;
                assert(4 * (e * e) * ((r1 + 1) * (r1 + 1)) >= 4 * (e * e) * s1) by (nonlinear_arith)
                    requires
                        (r1 + 1) * (r1 + 1) > s1,
                ;
                assert(false);
            }
        }
    }
}

} // verus!
