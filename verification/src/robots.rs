//! Robots on a wrapping field: text form, movement, quadrant census.

use vstd::prelude::*;
use vstd::string::StringSliceAdditionalSpecFns;

use crate::disk::all_digits;

verus! {

/// Field width the positions wrap at.
pub const WIDTH: i32 = 101;

/// Field height the positions wrap at.
pub const HEIGHT: i32 = 103;

/// A position or velocity on the field.
#[derive(Clone, Copy, Debug, PartialEq, Eq, Structural)]
pub struct Vector {
    pub x: i32,
    pub y: i32,
}

/// The value of an unsigned decimal digit string.
pub open spec fn dec_val(s: Seq<u8>) -> int
    decreases s.len(),
{
    if s.len() == 0 {
        0
    } else {
        dec_val(s.drop_last()) * 10 + (s.last() - 48)
    }
}

pub proof fn lemma_dec_val_mono(s: Seq<u8>, i: int)
    requires
        all_digits(s),
        0 <= i <= s.len(),
    ensures
        0 <= dec_val(s.take(i)) <= dec_val(s),
    decreases s.len() - i,
{
    if i == s.len() {
        assert(s.take(i) =~= s);
        lemma_dec_val_nonneg(s);
    } else {
        lemma_dec_val_mono(s, i + 1);
        assert(s.take(i + 1).drop_last() =~= s.take(i));
        lemma_dec_val_nonneg(s.take(i));
    }
}

pub proof fn lemma_dec_val_nonneg(s: Seq<u8>)
    requires
        all_digits(s),
    ensures
        dec_val(s) >= 0,
    decreases s.len(),
{
    if s.len() > 0 {
        assert(all_digits(s.drop_last()));
        lemma_dec_val_nonneg(s.drop_last());
    }
}

/// What a signed decimal byte string denotes, if well formed: an optional
/// `-`, then at least one digit, with the magnitude at most `i32::MAX`.
pub open spec fn spec_parse_i32(s: Seq<u8>) -> Option<int> {
    if s.len() > 0 && s.first() == 45 {
        let mag = s.drop_first();
        if mag.len() > 0 && all_digits(mag) && dec_val(mag) <= i32::MAX {
            Some(-dec_val(mag))
        } else {
            None
        }
    } else {
        if s.len() > 0 && all_digits(s) && dec_val(s) <= i32::MAX {
            Some(dec_val(s))
        } else {
            None
        }
    }
}

/// Reads an unsigned decimal digit string.
#[verifier::loop_isolation(false)]
fn parse_mag(s: &[u8]) -> (r: Option<i32>)
    ensures
        r == if s@.len() > 0 && all_digits(s@) && dec_val(s@) <= i32::MAX {
            Some(dec_val(s@) as i32)
        } else {
            None::<i32>
        },
{
    if s.len() == 0 {
        return None;
    }
    let mut acc: i64 = 0;
    let mut i: usize = 0;
    while i < s.len()
        invariant
            i <= s@.len(),
            all_digits(s@.take(i as int)),
            acc == dec_val(s@.take(i as int)),
            0 <= acc <= i32::MAX,
        decreases s@.len() - i,
    {
        let b = s[i];
        if b < 48 || b > 57 {
            return None;
        }
        proof {
            assert(s@.take(i as int + 1).drop_last() =~= s@.take(i as int));
            assert(all_digits(s@.take(i as int + 1)));
        }
        acc = acc * 10 + ((b - 48) as i64);
        i += 1;
        if acc > i32::MAX as i64 {
            // every continuation only grows the value
            proof {
                if all_digits(s@) {
                    lemma_dec_val_mono(s@, i as int);
                    assert(s@.take(s@.len() as int) =~= s@);
                    assert(dec_val(s@) > i32::MAX);
                }
            }
            return None;
        }
    }
    proof {
        assert(s@.take(s@.len() as int) =~= s@);
    }
    Some(acc as i32)
}

/// Reads a signed decimal byte string; magnitudes above `i32::MAX` are
/// rejected.
pub fn parse_i32(s: &[u8]) -> (r: Option<i32>)
    ensures
        r == match spec_parse_i32(s@) {
            Some(v) => Some(v as i32),
            None => None::<i32>,
        },
{
    if s.len() > 0 && s[0] == 45 {
        let rest = &s[1..s.len()];
        proof {
            assert(rest@ =~= s@.drop_first());
        }
        match parse_mag(rest) {
            Some(v) => {
                proof {
                    lemma_dec_val_nonneg(rest@);
                }
                Some(-v)
            },
            None => None,
        }
    } else {
        parse_mag(s)
    }
}

/// The position of the first occurrence of `b`, if any.
pub open spec fn spec_find(s: Seq<u8>, b: u8) -> Option<int>
    decreases s.len(),
{
    if s.len() == 0 {
        None
    } else if s.first() == b {
        Some(0)
    } else {
        match spec_find(s.drop_first(), b) {
            Some(k) => Some(k + 1),
            None => None,
        }
    }
}

/// Finds the first occurrence of `b`.
#[verifier::loop_isolation(false)]
pub fn find_byte(s: &[u8], b: u8) -> (r: Option<usize>)
    ensures
        match r {
            Some(k) => k < s@.len() && spec_find(s@, b) == Some(k as int),
            None => spec_find(s@, b) is None,
        },
{
    let mut i: usize = 0;
    proof {
        assert(s@.skip(0) =~= s@);
    }
    while i < s.len()
        invariant
            i <= s@.len(),
            spec_find(s@, b) == match spec_find(s@.skip(i as int), b) {
                Some(k) => Some(k + i),
                None => None::<int>,
            },
        decreases s@.len() - i,
    {
        proof {
            assert(s@.skip(i as int).first() == s@[i as int]);
            assert(s@.skip(i as int).drop_first() =~= s@.skip(i as int + 1));
        }
        if s[i] == b {
            return Some(i);
        }
        i += 1;
    }
    proof {
        assert(s@.skip(i as int).len() == 0);
    }
    None
}

/// What a `x,y` byte string denotes, if well formed.
pub open spec fn spec_parse_vector(s: Seq<u8>) -> Option<Vector> {
    match spec_find(s, 44) {
        None => None,
        Some(k) => match (spec_parse_i32(s.take(k)), spec_parse_i32(s.skip(k + 1))) {
            (Some(x), Some(y)) => Some(Vector { x: x as i32, y: y as i32 }),
            _ => None,
        },
    }
}

impl Vector {
    /// Reads a `x,y` pair of signed decimals.
    pub fn parse(s: &str) -> (r: Option<Vector>)
        ensures
            r == spec_parse_vector(s.spec_bytes()),
    {
        let bytes = s.as_bytes();
        proof {
            assert(bytes@ == s.spec_bytes());
        }
        let n = bytes.len();
        match find_byte(bytes, 44) {
            None => None,
            Some(k) => {
                let xs = &bytes[0..k];
                let ys = &bytes[k + 1..n];
                proof {
                    assert(xs@ =~= bytes@.take(k as int));
                    assert(ys@ =~= bytes@.skip(k as int + 1));
                }
                match (parse_i32(xs), parse_i32(ys)) {
                    (Some(x), Some(y)) => Some(Vector { x, y }),
                    _ => None,
                }
            },
        }
    }
}

/// A robot: where it stands and how far it moves each tick.
#[derive(Clone, Debug, PartialEq, Eq, Structural)]
pub struct Robot {
    pub pos: Vector,
    pub dir: Vector,
}

/// What a `p=x,y v=x,y` byte string denotes, if well formed.
pub open spec fn spec_parse_robot(s: Seq<u8>) -> Option<Robot> {
    match spec_find(s, 32) {
        None => None,
        Some(k) => {
            let ps = s.take(k);
            let vs = s.skip(k + 1);
            match (spec_find(ps, 61), spec_find(vs, 61)) {
                (Some(pe), Some(ve)) => match (spec_parse_vector(ps.skip(pe + 1)),
                    spec_parse_vector(vs.skip(ve + 1))) {
                    (Some(p), Some(v)) => Some(Robot { pos: p, dir: v }),
                    _ => None,
                },
                _ => None,
            }
        },
    }
}

impl Robot {
    /// Reads a `p=x,y v=x,y` line.
    pub fn parse(line: &str) -> (r: Option<Robot>)
        ensures
            r == spec_parse_robot(line.spec_bytes()),
    {
        let bytes = line.as_bytes();
        proof {
            assert(bytes@ == line.spec_bytes());
        }
        let n = bytes.len();
        let k = match find_byte(bytes, 32) {
            None => {
                return None;
            },
            Some(k) => k,
        };
        let ps = &bytes[0..k];
        let vs = &bytes[k + 1..n];
        proof {
            assert(ps@ =~= bytes@.take(k as int));
            assert(vs@ =~= bytes@.skip(k as int + 1));
        }
        let pe = match find_byte(ps, 61) {
            None => {
                return None;
            },
            Some(i) => i,
        };
        let ve = match find_byte(vs, 61) {
            None => {
                return None;
            },
            Some(i) => i,
        };
        let np = ps.len();
        let nv = vs.len();
        let pss = &ps[pe + 1..np];
        let vss = &vs[ve + 1..nv];
        proof {
            assert(pss@ =~= ps@.skip(pe as int + 1));
            assert(vss@ =~= vs@.skip(ve as int + 1));
        }
        let p = match vector_from_bytes(pss) {
            None => {
                return None;
            },
            Some(v) => v,
        };
        let v = match vector_from_bytes(vss) {
            None => {
                return None;
            },
            Some(v) => v,
        };
        Some(Robot { pos: p, dir: v })
    }

    /// Advances the robot one tick, wrapping at the field edges.
    ///
    /// The sums must stay within `i32` and be non-negative, which every
    /// on-field position and any velocity of less than one field in
    /// magnitude satisfies.
    pub fn step(&mut self)
        requires
            0 <= old(self).pos.x + old(self).dir.x + WIDTH <= i32::MAX,
            0 <= old(self).pos.y + old(self).dir.y + HEIGHT <= i32::MAX,
        ensures
            final(self).pos.x == ((old(self).pos.x + old(self).dir.x + WIDTH) as int) % (WIDTH as int),
            final(self).pos.y == ((old(self).pos.y + old(self).dir.y + HEIGHT) as int) % (HEIGHT as int),
            final(self).dir == old(self).dir,
            0 <= final(self).pos.x < WIDTH,
            0 <= final(self).pos.y < HEIGHT,
    {
        self.pos = Vector {
            x: (self.pos.x + self.dir.x + WIDTH) % WIDTH,
            y: (self.pos.y + self.dir.y + HEIGHT) % HEIGHT,
        };
    }
}

/// Reads a `x,y` pair from raw bytes.
fn vector_from_bytes(s: &[u8]) -> (r: Option<Vector>)
    ensures
        r == spec_parse_vector(s@),
{
    let n = s.len();
    match find_byte(s, 44) {
        None => None,
        Some(k) => {
            let xs = &s[0..k];
            let ys = &s[k + 1..n];
            proof {
                assert(xs@ =~= s@.take(k as int));
                assert(ys@ =~= s@.skip(k as int + 1));
            }
            match (parse_i32(xs), parse_i32(ys)) {
                (Some(x), Some(y)) => Some(Vector { x, y }),
                _ => None,
            }
        },
    }
}

/// How many robots stand strictly inside each quadrant; robots on the
/// middle row or column count nowhere.
pub fn quadrant_counts(robots: &Vec<Robot>) -> (r: (usize, usize, usize, usize))
    ensures
        r.0 + r.1 + r.2 + r.3 <= robots@.len(),
{
    let mut q1: usize = 0;
    let mut q2: usize = 0;
    let mut q3: usize = 0;
    let mut q4: usize = 0;
    let mut i: usize = 0;
    while i < robots.len()
        invariant
            i <= robots@.len(),
            q1 + q2 + q3 + q4 <= i,
        decreases robots@.len() - i,
    {
        let r = &robots[i];
        if r.pos.x < WIDTH / 2 && r.pos.y < HEIGHT / 2 {
            q1 += 1;
        } else if r.pos.x > WIDTH / 2 && r.pos.y < HEIGHT / 2 {
            q2 += 1;
        } else if r.pos.x < WIDTH / 2 && r.pos.y > HEIGHT / 2 {
            q3 += 1;
        } else if r.pos.x > WIDTH / 2 && r.pos.y > HEIGHT / 2 {
            q4 += 1;
        }
        i += 1;
    }
    (q1, q2, q3, q4)
}

} // verus!
