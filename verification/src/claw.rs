//! Claw machines: how many presses of two buttons land on a prize.

use vstd::prelude::*;

verus! {

/// One machine: the two button displacements and the prize position.
#[derive(Clone, Copy, PartialEq, Eq, Structural, Debug)]
pub struct Equation {
    pub dx_a: u64,
    pub dy_a: u64,
    pub dx_b: u64,
    pub dy_b: u64,
    pub x: u64,
    pub y: u64,
}

impl Equation {
    /// Presses `a` of button A and `b` of button B land on the prize.
    pub open spec fn hits(self, a: int, b: int) -> bool {
        &&& a * self.dx_a + b * self.dx_b == self.x
        &&& a * self.dy_a + b * self.dy_b == self.y
    }

    /// Cramer's rule over unsigned integers: what `solve` returns, case
    /// by case on the sign of the determinant.
    pub open spec fn spec_solution(self) -> Option<(u64, u64)> {
        let n0 = self.dy_b * self.x;
        let n1 = self.dx_b * self.y;
        let m0 = self.dx_a * self.y;
        let m1 = self.dy_a * self.x;
        let det0 = self.dx_a * self.dy_b;
        let det1 = self.dx_b * self.dy_a;
        if det1 == det0 {
            None
        } else if det0 > det1 && n0 > n1 && m0 > m1 && (n0 - n1) % (det0 - det1) == 0 && (m0 - m1)
            % (det0 - det1) == 0 {
            Some((((n0 - n1) / (det0 - det1)) as u64, ((m0 - m1) / (det0 - det1)) as u64))
        } else if det1 > det0 && n1 > n0 && m1 > m0 && (n1 - n0) % (det1 - det0) == 0 && (m1 - m0)
            % (det1 - det0) == 0 {
            Some((((n1 - n0) / (det1 - det0)) as u64, ((m1 - m0) / (det1 - det0)) as u64))
        } else {
            None
        }
    }

    /// Solves the machine by Cramer's rule.
    ///
    /// A returned press pair actually lands on the prize. Machines whose
    /// buttons are linearly dependent are reported unsolvable without
    /// further search, as are sign or divisibility mismatches.
    #[verifier::rlimit(100)]
    pub fn solve(&self) -> (r: Option<(u64, u64)>)
        requires
            self.dx_a < 0x1_0000,
            self.dy_a < 0x1_0000,
            self.dx_b < 0x1_0000,
            self.dy_b < 0x1_0000,
            self.x < 0x4000_0000_0000,
            self.y < 0x4000_0000_0000,
        ensures
            r == self.spec_solution(),
            match r {
                Some(p) => self.hits(p.0 as int, p.1 as int),
                None => true,
            },
    {
        let e = *self;
        proof {
            assert(e.dy_b * e.x < 0x4000_0000_0000_0000 && e.dx_b * e.y < 0x4000_0000_0000_0000
                && e.dx_a * e.y < 0x4000_0000_0000_0000 && e.dy_a * e.x < 0x4000_0000_0000_0000
                && e.dx_a * e.dy_b < 0x4000_0000_0000_0000 && e.dx_b * e.dy_a
                < 0x4000_0000_0000_0000) by (nonlinear_arith)
                requires
                    e.dx_a < 0x1_0000,
                    e.dy_a < 0x1_0000,
                    e.dx_b < 0x1_0000,
                    e.dy_b < 0x1_0000,
                    e.x < 0x4000_0000_0000,
                    e.y < 0x4000_0000_0000,
            ;
        }
        let n0 = self.dy_b * self.x;
        let n1 = self.dx_b * self.y;
        let m0 = self.dx_a * self.y;
        let m1 = self.dy_a * self.x;
        let det0 = self.dx_a * self.dy_b;
        let det1 = self.dx_b * self.dy_a;
        if det1 == det0 {
            return None;
        }
        if det0 > det1 && n0 > n1 && m0 > m1 {
            let det = det0 - det1;
            let n = n0 - n1;
            let m = m0 - m1;
            if n % det == 0 && m % det == 0 {
                let a = n / det;
                let b = m / det;
                proof {
                    assert((n as int / det as int) * (det as int) == n as int && (m as int
                        / det as int) * (det as int) == m as int) by (nonlinear_arith)
                        requires
                            det > 0,
                            n % det == 0,
                            m % det == 0,
                    ;
                    lemma_cramer(
                        e.dx_a as int,
                        e.dy_a as int,
                        e.dx_b as int,
                        e.dy_b as int,
                        e.x as int,
                        e.y as int,
                        a as int,
                        b as int,
                    );
                }
                return Some((a, b));
            }
            return None;
        }
        if det1 > det0 && n1 > n0 && m1 > m0 {
            let det = det1 - det0;
            let n = n1 - n0;
            let m = m1 - m0;
            if n % det == 0 && m % det == 0 {
                let a = n / det;
                let b = m / det;
                proof {
                    assert((n as int / det as int) * (det as int) == n as int && (m as int
                        / det as int) * (det as int) == m as int) by (nonlinear_arith)
                        requires
                            det > 0,
                            n % det == 0,
                            m % det == 0,
                    ;
                    let dxa = e.dx_a as int;
                    let dya = e.dy_a as int;
                    let dxb = e.dx_b as int;
                    let dyb = e.dy_b as int;
                    assert(a as int * (dxa * dyb - dxb * dya) == -(a as int * (dxb * dya - dxa
                        * dyb))) by (nonlinear_arith);
                    assert(b as int * (dxa * dyb - dxb * dya) == -(b as int * (dxb * dya - dxa
                        * dyb))) by (nonlinear_arith);
                    lemma_cramer(
                        e.dx_a as int,
                        e.dy_a as int,
                        e.dx_b as int,
                        e.dy_b as int,
                        e.x as int,
                        e.y as int,
                        a as int,
                        b as int,
                    );
                }
                return Some((a, b));
            }
            return None;
        }
        None
    }
}

/// When the Cramer quotients divide evenly, the presses they name land
/// on the prize.
#[verifier::rlimit(100)]
proof fn lemma_cramer(dxa: int, dya: int, dxb: int, dyb: int, x: int, y: int, a: int, b: int)
    requires
        dxa * dyb != dxb * dya,
        a * (dxa * dyb - dxb * dya) == dyb * x - dxb * y,
        b * (dxa * dyb - dxb * dya) == dxa * y - dya * x,
    ensures
        a * dxa + b * dxb == x,
        a * dya + b * dyb == y,
{
    let det = dxa * dyb - dxb * dya;
    assert(dxa * (a * det) + dxb * (b * det) == (a * dxa + b * dxb) * det) by (nonlinear_arith);
    assert(dxa * (dyb * x - dxb * y) + dxb * (dxa * y - dya * x) == x * (dxa * dyb - dxb * dya))
        by (nonlinear_arith);
    assert(dxa * (a * det) == dxa * (dyb * x - dxb * y)) by (nonlinear_arith)
        requires
            a * det == dyb * x - dxb * y,
    ;
    assert(dxb * (b * det) == dxb * (dxa * y - dya * x)) by (nonlinear_arith)
        requires
            b * det == dxa * y - dya * x,
    ;
    assert((a * dxa + b * dxb) * det == x * det);
    assert(a * dxa + b * dxb == x) by (nonlinear_arith)
        requires
            det != 0,
            (a * dxa + b * dxb) * det == x * det,
    ;
    assert(dya * (a * det) + dyb * (b * det) == (a * dya + b * dyb) * det) by (nonlinear_arith);
    assert(dya * (dyb * x - dxb * y) + dyb * (dxa * y - dya * x) == y * (dxa * dyb - dxb * dya))
        by (nonlinear_arith);
    assert(dya * (a * det) == dya * (dyb * x - dxb * y)) by (nonlinear_arith)
        requires
            a * det == dyb * x - dxb * y,
    ;
    assert(dyb * (b * det) == dyb * (dxa * y - dya * x)) by (nonlinear_arith)
        requires
            b * det == dxa * y - dya * x,
    ;
    assert((a * dya + b * dyb) * det == y * det);
    assert(a * dya + b * dyb == y) by (nonlinear_arith)
        requires
            det != 0,
            (a * dya + b * dyb) * det == y * det,
    ;
}

} // verus!
