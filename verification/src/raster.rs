//! The pixels of a chord: a straight segment between two pins, sampled once
//! per step along its longer axis and rounded to the nearest pixel.

use vstd::prelude::*;

verus! {

/// Lexicographic order on points, by x and then by y.
pub open spec fn lex_le(p: (u32, u32), q: (u32, u32)) -> bool {
    p.0 < q.0 || (p.0 == q.0 && p.1 <= q.1)
}

/// The end a chord is traversed from: the smaller of its two ends.
pub open spec fn chord_from(p: (u32, u32), q: (u32, u32)) -> (u32, u32) {
    if lex_le(p, q) {
        p
    } else {
        q
    }
}

/// The end a chord is traversed to: the larger of its two ends.
pub open spec fn chord_to(p: (u32, u32), q: (u32, u32)) -> (u32, u32) {
    if lex_le(p, q) {
        q
    } else {
        p
    }
}

/// Distance between two coordinates.
pub open spec fn span(a: u32, b: u32) -> int {
    if a <= b {
        b - a
    } else {
        a - b
    }
}

/// Number of steps of a chord: its extent along the longer axis. The chord
/// has one pixel more than it has steps.
pub open spec fn chord_steps(p: (u32, u32), q: (u32, u32)) -> int {
    if span(p.0, q.0) >= span(p.1, q.1) {
        span(p.0, q.0)
    } else {
        span(p.1, q.1)
    }
}

/// The coordinate reached after `i` of `n` steps from `a` towards `b`,
/// rounded to the nearest integer (halves away from `a`).
pub open spec fn lerp(a: u32, b: u32, i: int, n: int) -> int {
    if n == 0 {
        a as int
    } else if a <= b {
        a + (2 * (i * (b - a)) + n) / (2 * n)
    } else {
        a - (2 * (i * (a - b)) + n) / (2 * n)
    }
}

/// The `i`-th pixel of the chord between `p` and `q`, for `0 <= i <=
/// chord_steps(p, q)`.
pub open spec fn chord_pixel(p: (u32, u32), q: (u32, u32), i: int) -> (int, int) {
    let a = chord_from(p, q);
    let b = chord_to(p, q);
    let n = chord_steps(p, q);
    (lerp(a.0, b.0, i, n), lerp(a.1, b.1, i, n))
}

/// A chord does not depend on the order in which its ends are given: the
/// same pixels come out, in the same order.
pub proof fn lemma_chord_symmetric(p: (u32, u32), q: (u32, u32), i: int)
    ensures
        chord_steps(p, q) == chord_steps(q, p),
        chord_pixel(p, q, i) == chord_pixel(q, p, i),
{
}

proof fn lemma_lerp_between(a: u32, b: u32, i: int, n: int)
    requires
        0 <= i <= n,
        span(a, b) <= n,
    ensures
        a <= b ==> a <= lerp(a, b, i, n) <= b,
        a > b ==> b <= lerp(a, b, i, n) <= a,
        lerp(a, b, 0, n) == a,
        lerp(a, b, n, n) == b,
{
    if n > 0 {
        let d = span(a, b);
        let x = i * d;
        assert(0 <= x <= n * d) by (nonlinear_arith)
            requires
                0 <= i <= n,
                0 <= d,
                x == i * d,
        ;
        let q = (2 * x + n) / (2 * n);
        assert(0 <= q <= d) by (nonlinear_arith)
            requires
                0 <= x <= n * d,
                0 < n,
                0 <= d,
                q == (2 * x + n) / (2 * n),
        ;
        assert(0 * d == 0) by (nonlinear_arith);
        assert((2 * 0 + n) / (2 * n) == 0) by (nonlinear_arith)
            requires
                0 < n,
        ;
        let y = n * d;
        assert((2 * y + n) / (2 * n) == d) by (nonlinear_arith)
            requires
                0 < n,
                0 <= d,
                y == n * d,
        ;
    }
}

/// Every pixel of a chord lies in the rectangle spanned by its two ends;
/// the first is the smaller end and the last the larger.
pub proof fn lemma_chord_between_ends(p: (u32, u32), q: (u32, u32), i: int)
    requires
        0 <= i <= chord_steps(p, q),
    ensures
        ({
            let px = chord_pixel(p, q, i);
            &&& (p.0 <= px.0 <= q.0 || q.0 <= px.0 <= p.0)
            &&& (p.1 <= px.1 <= q.1 || q.1 <= px.1 <= p.1)
        }),
        chord_pixel(p, q, 0) == (chord_from(p, q).0 as int, chord_from(p, q).1 as int),
        chord_pixel(p, q, chord_steps(p, q)) == (
            chord_to(p, q).0 as int,
            chord_to(p, q).1 as int,
        ),
{
    let a = chord_from(p, q);
    let b = chord_to(p, q);
    let n = chord_steps(p, q);
    lemma_lerp_between(a.0, b.0, i, n);
    lemma_lerp_between(a.1, b.1, i, n);
}

/// Number of steps of the chord between `p` and `q`.
pub fn steps(p: (u32, u32), q: (u32, u32)) -> (n: u32)
    ensures
        n == chord_steps(p, q),
{
    let dx: u32 = if p.0 <= q.0 {
        q.0 - p.0
    } else {
        p.0 - q.0
    };
    let dy: u32 = if p.1 <= q.1 {
        q.1 - p.1
    } else {
        p.1 - q.1
    };
    if dx >= dy {
        dx
    } else {
        dy
    }
}

fn lerp_at(a: u32, b: u32, i: u32, n: u32) -> (r: u32)
    requires
        i <= n,
        span(a, b) <= n,
    ensures
        r == lerp(a, b, i as int, n as int),
{
    if n == 0 {
        return a;
    }
    let d: u128 = if a <= b {
        (b - a) as u128
    } else {
        (a - b) as u128
    };
    assert(0 <= i as int * d as int <= 0xFFFF_FFFF * 0xFFFF_FFFF) by (nonlinear_arith)
        requires
            0 <= i <= 0xFFFF_FFFF,
            0 <= d <= 0xFFFF_FFFF,
    ;
    let num: u128 = 2 * ((i as u128) * d) + (n as u128);
    let den: u128 = 2 * (n as u128);
    let q: u128 = num / den;
    proof {
        lemma_lerp_between(a, b, i as int, n as int);
    }
    if a <= b {
        a + (q as u32)
    } else {
        a - (q as u32)
    }
}

/// The `i`-th pixel of the chord between `p` and `q`.
pub fn pixel_at(p: (u32, u32), q: (u32, u32), i: u32) -> (r: (u32, u32))
    requires
        i <= chord_steps(p, q),
    ensures
        r.0 == chord_pixel(p, q, i as int).0,
        r.1 == chord_pixel(p, q, i as int).1,
{
    let n: u32 = steps(p, q);
    let forward: bool = p.0 < q.0 || (p.0 == q.0 && p.1 <= q.1);
    let a: (u32, u32) = if forward {
        p
    } else {
        q
    };
    let b: (u32, u32) = if forward {
        q
    } else {
        p
    };
    (lerp_at(a.0, b.0, i, n), lerp_at(a.1, b.1, i, n))
}

} // verus!
