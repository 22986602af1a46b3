//! Robots on a wrapping grid: each has a position and a velocity, and
//! teleports modulo the room size.  Part one steps every robot 100 times on
//! a 101 by 103 room and multiplies the four quadrant head-counts.

use vstd::prelude::*;

verus! {

use crate::parse::{
    ascii_bytes, bytes_of, find_sep, is_signed, lines_spec, lines_of, parse_i64, signed_val,
    words_spec, words_of,
};

/// A plain two-dimensional integer vector.
#[derive(Clone, Copy, PartialEq, Eq, Structural, Debug)]
pub struct Vec2 {
    pub x: i64,
    pub y: i64,
}

/// One robot: where it stands and how it moves each second.
#[derive(Clone, Copy, PartialEq, Eq, Structural, Debug)]
pub struct Robot {
    pub pos: Vec2,
    pub v: Vec2,
}

/// Where a coordinate lands after `t` steps of `v` on a line of length `w`
/// that wraps around.
pub open spec fn wrap_coord(p: int, v: int, t: int, w: int) -> int {
    (p + v * t) % w
}

/// The euclidean remainder of `d` modulo `w`, computed on machine words.
fn euclid_mod(d: i128, w: i64) -> (r: i64)
    requires
        1 <= w,
        d > i128::MIN,
    ensures
        r == (d as int) % (w as int),
        0 <= r < w,
{
    let wi = w as i128;
    if d >= 0 {
        let m = d % wi;
        proof {
            assert(0 <= (d as int) % (w as int) < w);
        }
        m as i64
    } else {
        let nd = -d;
        let m = nd % wi;
        proof {
            vstd::arithmetic::div_mod::lemma_fundamental_div_mod(nd as int, w as int);
            let q = nd as int / w as int;
            assert(d as int == (-q) * (w as int) + (-((nd as int) % (w as int)))) by (nonlinear_arith)
                requires
                    nd == -d,
                    nd as int == q * (w as int) + ((nd as int) % (w as int)),
            ;
            if nd as int % (w as int) == 0 {
                assert((d as int) % (w as int) == 0) by (nonlinear_arith)
                    requires
                        d as int == (-q) * (w as int),
                        w >= 1,
                ;
            } else {
                assert(d as int == (-q - 1) * (w as int) + ((w as int) - ((nd as int) % (
                w as int)))) by (nonlinear_arith)
                    requires
                        d as int == (-q) * (w as int) - ((nd as int) % (w as int)),
                ;
                assert((d as int) % (w as int) == (w as int) - ((nd as int) % (w as int)))
                    by (nonlinear_arith)
                    requires
                        d as int == (-q - 1) * (w as int) + ((w as int) - ((nd as int) % (
                        w as int))),
                        0 < (w as int) - ((nd as int) % (w as int)) < (w as int),
                        w >= 1,
                ;
            }
        }
        if m == 0 {
            0
        } else {
            (wi - m) as i64
        }
    }
}

impl Robot {
    /// Step the robot `t` times on a `w` by `h` room that wraps.
    pub fn step(&mut self, t: i64, w: i64, h: i64)
        requires
            1 <= w,
            1 <= h,
        ensures
            final(self).pos.x == wrap_coord(old(self).pos.x as int, old(self).v.x as int, t as int, w as int),
            final(self).pos.y == wrap_coord(old(self).pos.y as int, old(self).v.y as int, t as int, h as int),
            final(self).v == old(self).v,
    {
        proof {
            let vx = self.v.x as int;
            let vy = self.v.y as int;
            let tt = t as int;
            assert(-0x4000_0000_0000_0000_0000_0000_0000_0000 <= vx * tt
                <= 0x4000_0000_0000_0000_0000_0000_0000_0000 && -0x4000_0000_0000_0000_0000_0000_0000_0000
                <= vy * tt <= 0x4000_0000_0000_0000_0000_0000_0000_0000) by (nonlinear_arith)
                requires
                    -0x8000_0000_0000_0000 <= vx <= 0x7FFF_FFFF_FFFF_FFFF,
                    -0x8000_0000_0000_0000 <= vy <= 0x7FFF_FFFF_FFFF_FFFF,
                    -0x8000_0000_0000_0000 <= tt <= 0x7FFF_FFFF_FFFF_FFFF,
            ;
        }
        let dx: i128 = self.pos.x as i128 + (self.v.x as i128) * (t as i128);
        let dy: i128 = self.pos.y as i128 + (self.v.y as i128) * (t as i128);
        let nx = euclid_mod(dx, w);
        let ny = euclid_mod(dy, h);
        self.pos.x = nx;
        self.pos.y = ny;
    }
}

/// The robot written on one line, when it parses: `p=x,y v=dx,dy`.
pub open spec fn line_robot(l: Seq<u8>) -> Option<Robot> {
    let ws = words_spec(l);
    if ws.len() != 2 {
        None
    } else {
        match (coord_pair(ws[0], 2), coord_pair(ws[1], 2)) {
            (Some(p), Some(v)) => Some(
                Robot { pos: Vec2 { x: p.0, y: p.1 }, v: Vec2 { x: v.0, y: v.1 } },
            ),
            _ => None,
        }
    }
}

/// Two comma-separated signed numbers after a prefix of `skip` bytes.
pub open spec fn coord_pair(wd: Seq<u8>, skip: int) -> Option<(i64, i64)> {
    if wd.len() < skip {
        None
    } else {
        let body = wd.skip(skip);
        let ci = find_sep(body, 44);
        if !(0 <= ci < body.len()) {
            None
        } else {
            let a = body.take(ci);
            let b = body.skip(ci + 1);
            if is_signed(a) && is_signed(b) && -0x8000_0000_0000_0000 <= signed_val(a)
                < 0x8000_0000_0000_0000 && -0x8000_0000_0000_0000 <= signed_val(b)
                < 0x8000_0000_0000_0000 {
                Some((signed_val(a) as i64, signed_val(b) as i64))
            } else {
                None
            }
        }
    }
}

/// Parse `x,y` after a two-byte prefix.
fn parse_coord_pair(wd: &Vec<u8>) -> (r: Option<(i64, i64)>)
    ensures
        r == coord_pair(wd@, 2),
{
    if wd.len() < 2 {
        return None;
    }
    let body = crate::parse::sub_vec(wd.as_slice(), 2, wd.len());
    proof {
        assert(body@ =~= wd@.skip(2));
    }
    let ci = crate::parse::find_byte(body.as_slice(), 0, 44);
    proof {
        assert(body@.subrange(0, body@.len() as int) =~= body@);
    }
    if ci >= body.len() {
        return None;
    }
    let a = crate::parse::sub_vec(body.as_slice(), 0, ci);
    let b = crate::parse::sub_vec(body.as_slice(), ci + 1, body.len());
    proof {
        assert(a@ =~= body@.take(ci as int));
        assert(b@ =~= body@.skip(ci + 1));
    }
    match (parse_i64(a.as_slice()), parse_i64(b.as_slice())) {
        (Some(x), Some(y)) => Some((x, y)),
        _ => None,
    }
}

/// Every line writes a robot.
pub open spec fn robots_parse(s: Seq<u8>) -> bool {
    forall|i: int| 0 <= i < lines_spec(s).len() ==> line_robot(#[trigger] lines_spec(s)[i]) is Some
}

pub open spec fn robots_of(s: Seq<u8>) -> Seq<Robot> {
    lines_spec(s).map_values(|l: Seq<u8>| line_robot(l)->0)
}

/// Parse one robot per line.
pub fn parse(input: &str) -> (r: Option<Vec<Robot>>)
    ensures
        match r {
            Some(v) => input.is_ascii() && robots_parse(ascii_bytes(input@)) && v@ == robots_of(
                ascii_bytes(input@),
            ),
            None => !input.is_ascii() || !robots_parse(ascii_bytes(input@)),
        },
{
    if !input.is_ascii() {
        return None;
    }
    let bytes = bytes_of(input);
    let lines = lines_of(&bytes);
    let ghost ls = lines_spec(bytes@);
    let mut v: Vec<Robot> = Vec::new();
    let mut k: usize = 0;
    while k < lines.len()
        invariant
            0 <= k <= lines@.len(),
            input.is_ascii(),
            ls == lines_spec(ascii_bytes(input@)),
            lines@.len() == ls.len(),
            forall|t: int| 0 <= t < ls.len() ==> lines@[t]@ == ls[t],
            forall|t: int| 0 <= t < k ==> line_robot(#[trigger] ls[t]) is Some,
            v@.len() == k,
            forall|t: int| 0 <= t < k ==> v@[t] == line_robot(ls[t])->0,
        decreases lines@.len() - k,
    {
        let l = &lines[k];
        let words = words_of(l.as_slice());
        if words.len() != 2 {
            proof {
                assert(line_robot(ls[k as int]) is None);
            }
            return None;
        }
        let p = match parse_coord_pair(&words[0]) {
            Some(p) => p,
            None => {
                proof {
                    assert(line_robot(ls[k as int]) is None);
                }
                return None;
            },
        };
        let vel = match parse_coord_pair(&words[1]) {
            Some(p) => p,
            None => {
                proof {
                    assert(line_robot(ls[k as int]) is None);
                }
                return None;
            },
        };
        v.push(Robot { pos: Vec2 { x: p.0, y: p.1 }, v: Vec2 { x: vel.0, y: vel.1 } });
        k += 1;
    }
    proof {
        assert(v@ =~= robots_of(ascii_bytes(input@)));
    }
    Some(v)
}

/// The quadrant a wrapped robot falls into after `t` steps, or none on a
/// middle line.
pub open spec fn quadrant(r: Robot, t: int, w: int, h: int) -> Option<int> {
    let x = wrap_coord(r.pos.x as int, r.v.x as int, t, w);
    let y = wrap_coord(r.pos.y as int, r.v.y as int, t, h);
    if x == w / 2 || y == h / 2 {
        None
    } else {
        Some(
            (if x < w / 2 {
                0int
            } else {
                1int
            }) + (if y < h / 2 {
                0int
            } else {
                2int
            }),
        )
    }
}

/// How many of the robots land in quadrant `q`.
pub open spec fn quad_count(rs: Seq<Robot>, t: int, w: int, h: int, q: int) -> int
    decreases rs.len(),
{
    if rs.len() == 0 {
        0
    } else {
        quad_count(rs.drop_last(), t, w, h, q) + if quadrant(rs.last(), t, w, h) == Some(q) {
            1int
        } else {
            0int
        }
    }
}

/// What part one answers: the product of the four quadrant counts,
/// multiplied left to right; `None` where a partial product already
/// leaves `u64`.
pub open spec fn safety_factor(s: Seq<u8>, t: int, w: int, h: int) -> Option<u64> {
    if !robots_parse(s) {
        None
    } else {
        let rs = robots_of(s);
        let a = quad_count(rs, t, w, h, 0);
        let b = quad_count(rs, t, w, h, 1);
        let c = quad_count(rs, t, w, h, 2);
        let d = quad_count(rs, t, w, h, 3);
        if a * b > u64::MAX {
            None
        } else if a * b * c > u64::MAX {
            None
        } else if a * b * c * d > u64::MAX {
            None
        } else {
            Some((a * b * c * d) as u64)
        }
    }
}

pub open spec fn part_one_spec(s: Seq<u8>) -> Option<u64> {
    safety_factor(s, 100, 101, 103)
}

/// Step the robots and multiply the quadrant head-counts.
pub fn solve_part_one(input: &str, t: i64, w: i64, h: i64) -> (r: Option<u64>)
    requires
        1 <= w,
        1 <= h,
    ensures
        r == if input.is_ascii() {
            safety_factor(ascii_bytes(input@), t as int, w as int, h as int)
        } else {
            None::<u64>
        },
{
    let mut robots = match parse(input) {
        Some(v) => v,
        None => {
            return None;
        },
    };
    let ghost rs = robots@;
    let mut c0: u64 = 0;
    let mut c1: u64 = 0;
    let mut c2: u64 = 0;
    let mut c3: u64 = 0;
    let n = robots.len();
    let mut k: usize = 0;
    proof {
        assert(rs.take(0) =~= Seq::<Robot>::empty());
    }
    while k < n
        invariant
            0 <= k <= n,
            n == robots@.len(),
            robots@.len() == rs.len(),
            1 <= w,
            1 <= h,
            input.is_ascii(),
            rs == robots_of(ascii_bytes(input@)),
            robots_parse(ascii_bytes(input@)),
            forall|q: int| k <= q < n ==> robots@[q] == rs[q],
            c0 == quad_count(rs.take(k as int), t as int, w as int, h as int, 0),
            c1 == quad_count(rs.take(k as int), t as int, w as int, h as int, 1),
            c2 == quad_count(rs.take(k as int), t as int, w as int, h as int, 2),
            c3 == quad_count(rs.take(k as int), t as int, w as int, h as int, 3),
            c0 <= k && c1 <= k && c2 <= k && c3 <= k,
        decreases n - k,
    {
        proof {
            assert(rs.take(k + 1).drop_last() =~= rs.take(k as int));
            assert(rs.take(k + 1).last() == rs[k as int]);
        }
        let mut rb = robots[k];
        rb.step(t, w, h);
        let x = rb.pos.x;
        let y = rb.pos.y;
        if x != w / 2 && y != h / 2 {
            let mut q: usize = 0;
            if x >= w / 2 {
                q += 1;
            }
            if y >= h / 2 {
                q += 2;
            }
            if q == 0 {
                c0 += 1;
            } else if q == 1 {
                c1 += 1;
            } else if q == 2 {
                c2 += 1;
            } else {
                c3 += 1;
            }
        }
        k += 1;
    }
    proof {
        assert(rs.take(rs.len() as int) =~= rs);
    }
    let p01 = match c0.checked_mul(c1) {
        Some(p) => p,
        None => {
            return None;
        },
    };
    let p012 = match p01.checked_mul(c2) {
        Some(p) => p,
        None => {
            return None;
        },
    };
    match p012.checked_mul(c3) {
        Some(p) => Some(p),
        None => None,
    }
}

proof fn lemma_quad_nonneg(rs: Seq<Robot>, t: int, w: int, h: int, q: int)
    ensures
        quad_count(rs, t, w, h, q) >= 0,
    decreases rs.len(),
{
    if rs.len() > 0 {
        lemma_quad_nonneg(rs.drop_last(), t, w, h, q);
    }
}

/// The safety factor after 100 seconds on the real room.
pub fn part_one(input: &str) -> (r: Option<u64>)
    ensures
        r == if input.is_ascii() {
            part_one_spec(ascii_bytes(input@))
        } else {
            None::<u64>
        },
{
    solve_part_one(input, 100, 101, 103)
}

} // verus!
