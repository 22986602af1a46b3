//! Claw machines: button A moves the claw by one vector, button B by
//! another, and the prize sits at a target point.  A costs three tokens,
//! B one.  Each machine is a pair of linear equations; when the button
//! matrix is invertible there is at most one press count, and the puzzle
//! sums the token costs of the winnable machines.  Part two shifts every
//! prize ten trillion units.

use vstd::prelude::*;

verus! {

use crate::parse::{
    ascii_bytes, blocks_spec, bytes_of, digits_val, find_sep, is_digits, lines_spec, lines_of,
    parse_u64, split_blocks,
};

/// One claw machine.
#[derive(Clone, Copy, PartialEq, Eq, Structural, Debug)]
pub struct Equation {
    pub ax: u64,
    pub ay: u64,
    pub bx: u64,
    pub by: u64,
    pub rx: u64,
    pub ry: u64,
}

/// The determinant of the button matrix.
pub open spec fn det_of(e: Equation) -> int {
    e.ax * e.by - e.ay * e.bx
}

/// Pressing A `a` times and B `b` times lands exactly on the prize,
/// shifted by `off`.
pub open spec fn solves(e: Equation, off: int, a: int, b: int) -> bool {
    a * e.ax + b * e.bx == e.rx + off && a * e.ay + b * e.by == e.ry + off
}

pub open spec fn has_int_solution(e: Equation, off: int) -> bool {
    exists|a: int, b: int| solves(e, off, a, b)
}

/// A solution the machine can actually pay out: press counts are not
/// negative and the token cost fits `u64`.
pub open spec fn good_solution(e: Equation, off: int) -> bool {
    exists|a: int, b: int| solves(e, off, a, b) && 0 <= a && 0 <= b && 3 * a + b <= u64::MAX
}

/// The token cost of the machine: three per A press plus one per B press
/// of its unique solution, or zero when the matrix is singular or no
/// whole-number solution exists.
pub open spec fn eq_cost(e: Equation, off: int) -> int {
    if det_of(e) != 0 && good_solution(e, off) {
        let (a, b) = choose|a: int, b: int|
            solves(e, off, a, b) && 0 <= a && 0 <= b && 3 * a + b <= u64::MAX;
        3 * a + b
    } else {
        0
    }
}

/// The machine has a whole-number solution, but not one the tokens can
/// pay: a negative press count or a cost beyond `u64`.
pub open spec fn eq_bad(e: Equation, off: int) -> bool {
    det_of(e) != 0 && has_int_solution(e, off) && !good_solution(e, off)
}

/// Any solution satisfies the cross-multiplied forms.
#[verifier::rlimit(100)]
proof fn lemma_solution_shape(e: Equation, off: int, a: int, b: int)
    requires
        solves(e, off, a, b),
    ensures
        (e.rx + off) * e.by - (e.ry + off) * e.bx == det_of(e) * a,
        (e.ry + off) * e.ax - (e.rx + off) * e.ay == det_of(e) * b,
{
    let rx = e.rx + off;
    let ry = e.ry + off;
    assert(rx * e.by - ry * e.bx == (e.ax * e.by - e.ay * e.bx) * a) by (nonlinear_arith)
        requires
            rx == a * e.ax + b * e.bx,
            ry == a * e.ay + b * e.by,
    ;
    assert(ry * e.ax - rx * e.ay == (e.ax * e.by - e.ay * e.bx) * b) by (nonlinear_arith)
        requires
            rx == a * e.ax + b * e.bx,
            ry == a * e.ay + b * e.by,
    ;
}

/// Conversely, cross-multiplied press counts solve the system.
#[verifier::rlimit(100)]
proof fn lemma_quotients_solve(e: Equation, off: int, a: int, b: int)
    requires
        det_of(e) != 0,
        (e.rx + off) * e.by - (e.ry + off) * e.bx == det_of(e) * a,
        (e.ry + off) * e.ax - (e.rx + off) * e.ay == det_of(e) * b,
    ensures
        solves(e, off, a, b),
{
    let rx = e.rx + off;
    let ry = e.ry + off;
    let d = det_of(e);
    let an = rx * e.by - ry * e.bx;
    let bn = ry * e.ax - rx * e.ay;
    assert(e.ay * an + e.by * bn == ry * d) by (nonlinear_arith)
        requires
            an == rx * e.by - ry * e.bx,
            bn == ry * e.ax - rx * e.ay,
            d == e.ax * e.by - e.ay * e.bx,
    ;
    assert(e.ax * an + e.bx * bn == rx * d) by (nonlinear_arith)
        requires
            an == rx * e.by - ry * e.bx,
            bn == ry * e.ax - rx * e.ay,
            d == e.ax * e.by - e.ay * e.bx,
    ;
    assert(e.ay * (d * a) == d * (a * e.ay)) by (nonlinear_arith);
    assert(e.by * (d * b) == d * (b * e.by)) by (nonlinear_arith);
    assert(e.ax * (d * a) == d * (a * e.ax)) by (nonlinear_arith);
    assert(e.bx * (d * b) == d * (b * e.bx)) by (nonlinear_arith);
    assert(d * (a * e.ay) + d * (b * e.by) == ry * d);
    assert(d * (a * e.ax) + d * (b * e.bx) == rx * d);
    assert(d * (a * e.ay + b * e.by) == d * (a * e.ay) + d * (b * e.by)) by (nonlinear_arith);
    assert(d * (a * e.ax + b * e.bx) == d * (a * e.ax) + d * (b * e.bx)) by (nonlinear_arith);
    assert(ry * d == d * ry) by (nonlinear_arith);
    assert(rx * d == d * rx) by (nonlinear_arith);
    assert(a * e.ay + b * e.by == ry) by (nonlinear_arith)
        requires
            d != 0,
            d * (a * e.ay + b * e.by) == d * ry,
    ;
    assert(a * e.ax + b * e.bx == rx) by (nonlinear_arith)
        requires
            d != 0,
            d * (a * e.ax + b * e.bx) == d * rx,
    ;
}

/// With an invertible matrix, press counts are unique.
proof fn lemma_solution_unique(e: Equation, off: int, a1: int, b1: int, a2: int, b2: int)
    requires
        det_of(e) != 0,
        solves(e, off, a1, b1),
        solves(e, off, a2, b2),
    ensures
        a1 == a2,
        b1 == b2,
{
    lemma_solution_shape(e, off, a1, b1);
    lemma_solution_shape(e, off, a2, b2);
    let d = det_of(e);
    assert(a1 == a2 && b1 == b2) by (nonlinear_arith)
        requires
            d != 0,
            d * a1 == d * a2,
            d * b1 == d * b2,
    ;
}

/// The exact quotient of a signed pair from magnitudes: if `mag == dabs
/// * q` then the signed values divide to `sign * q`.
proof fn lemma_signed_quotient(n: int, d: int, nabs: int, dabs: int, q: int)
    requires
        d != 0,
        dabs == if d >= 0 {
            d
        } else {
            -d
        },
        nabs == if n >= 0 {
            n
        } else {
            -n
        },
        nabs == dabs * q,
        q >= 0,
    ensures
        (n >= 0 && d > 0) || (n <= 0 && d < 0) ==> n == d * q,
        !((n >= 0 && d > 0) || (n <= 0 && d < 0)) ==> n == d * (-q),
{
    assert(((n >= 0 && d > 0) || (n <= 0 && d < 0) ==> n == d * q) && (!((n >= 0 && d > 0) || (n
        <= 0 && d < 0)) ==> n == d * (-q))) by (nonlinear_arith)
        requires
            d != 0,
            dabs == if d >= 0 {
                d
            } else {
                -d
            },
            nabs == if n >= 0 {
                n
            } else {
                -n
            },
            nabs == dabs * q,
            q >= 0,
    ;
}

/// Products of two `u64` values stay inside `u128`.
proof fn lemma_u64_mul_fits(x: u64, y: u64)
    ensures
        0 <= (x as int) * (y as int) <= u128::MAX,
{
    assert(0 <= (x as int) * (y as int) <= u128::MAX) by (nonlinear_arith)
        requires
            0 <= x <= u64::MAX,
            0 <= y <= u64::MAX,
    ;
}

/// Solve one machine.  `Some(cost)` carries the exact token cost (zero
/// when there is no whole-number way); `None` when a press count would be
/// negative, a cost would leave `u64`, or the shifted prize leaves `u64`.
pub fn solve_equation(eq: &Equation, offset: u64) -> (r: Option<u64>)
    ensures
        match r {
            Some(c) => !eq_bad(*eq, offset as int) && c == eq_cost(*eq, offset as int) && eq.rx
                + offset <= u64::MAX && eq.ry + offset <= u64::MAX,
            None => eq_bad(*eq, offset as int) || eq.rx + offset > u64::MAX || eq.ry + offset
                > u64::MAX,
        },
{
    let e = *eq;
    let rx = match e.rx.checked_add(offset) {
        Some(v) => v,
        None => {
            return None;
        },
    };
    let ry = match e.ry.checked_add(offset) {
        Some(v) => v,
        None => {
            return None;
        },
    };
    let ghost off = offset as int;
    proof {
        lemma_u64_mul_fits(e.ax, e.by);
        lemma_u64_mul_fits(e.ay, e.bx);
        lemma_u64_mul_fits(rx, e.by);
        lemma_u64_mul_fits(ry, e.bx);
        lemma_u64_mul_fits(ry, e.ax);
        lemma_u64_mul_fits(rx, e.ay);
    }
    let t1: u128 = (e.ax as u128) * (e.by as u128);
    let t2: u128 = (e.ay as u128) * (e.bx as u128);
    if t1 == t2 {
        proof {
            assert(det_of(e) == 0);
        }
        return Some(0);
    }
    let det_pos = t1 > t2;
    let dabs: u128 = if det_pos {
        t1 - t2
    } else {
        t2 - t1
    };
    let u1: u128 = (rx as u128) * (e.by as u128);
    let u2: u128 = (ry as u128) * (e.bx as u128);
    let an_pos = u1 >= u2;
    let anabs: u128 = if an_pos {
        u1 - u2
    } else {
        u2 - u1
    };
    let v1: u128 = (ry as u128) * (e.ax as u128);
    let v2: u128 = (rx as u128) * (e.ay as u128);
    let bn_pos = v1 >= v2;
    let bnabs: u128 = if bn_pos {
        v1 - v2
    } else {
        v2 - v1
    };
    let ghost d = det_of(e);
    let ghost an = (e.rx + off) * e.by - (e.ry + off) * e.bx;
    let ghost bn = (e.ry + off) * e.ax - (e.rx + off) * e.ay;
    proof {
        assert(an == (u1 as int) - (u2 as int));
        assert(bn == (v1 as int) - (v2 as int));
        assert(d == (t1 as int) - (t2 as int));
    }
    let aq = anabs / dabs;
    let ar = anabs % dabs;
    let bq = bnabs / dabs;
    let br = bnabs % dabs;
    proof {
        vstd::arithmetic::div_mod::lemma_fundamental_div_mod(anabs as int, dabs as int);
        vstd::arithmetic::div_mod::lemma_fundamental_div_mod(bnabs as int, dabs as int);
    }
    if ar != 0 || br != 0 {
        // no whole-number solution at all
        proof {
            if has_int_solution(e, off) {
                let (a, b) = choose|a: int, b: int| solves(e, off, a, b);
                lemma_solution_shape(e, off, a, b);
                let aabs = if a >= 0 {
                    a
                } else {
                    -a
                };
                let babs = if b >= 0 {
                    b
                } else {
                    -b
                };
                assert(anabs as int == (dabs as int) * aabs && bnabs as int == (dabs as int)
                    * babs) by (nonlinear_arith)
                    requires
                        an == d * a,
                        bn == d * b,
                        d != 0,
                        dabs as int == if d >= 0 {
                            d
                        } else {
                            -d
                        },
                        anabs as int == if an >= 0 {
                            an
                        } else {
                            -an
                        },
                        bnabs as int == if bn >= 0 {
                            bn
                        } else {
                            -bn
                        },
                        aabs == if a >= 0 {
                            a
                        } else {
                            -a
                        },
                        babs == if b >= 0 {
                            b
                        } else {
                            -b
                        },
                ;
                vstd::arithmetic::div_mod::lemma_fundamental_div_mod_converse(
                    anabs as int,
                    dabs as int,
                    aabs,
                    0,
                );
                vstd::arithmetic::div_mod::lemma_fundamental_div_mod_converse(
                    bnabs as int,
                    dabs as int,
                    babs,
                    0,
                );
                assert(false);
            }
            assert(eq_cost(e, off) == 0);
            assert(!eq_bad(e, off));
        }
        return Some(0);
    }
    let ghost a0 = if (an >= 0 && d > 0) || (an <= 0 && d < 0) {
        aq as int
    } else {
        -(aq as int)
    };
    let ghost b0 = if (bn >= 0 && d > 0) || (bn <= 0 && d < 0) {
        bq as int
    } else {
        -(bq as int)
    };
    proof {
        lemma_signed_quotient(an, d, anabs as int, dabs as int, aq as int);
        lemma_signed_quotient(bn, d, bnabs as int, dabs as int, bq as int);
        lemma_quotients_solve(e, off, a0, b0);
    }
    let a_ok = anabs == 0 || an_pos == det_pos;
    let b_ok = bnabs == 0 || bn_pos == det_pos;
    proof {
        if a_ok {
            assert(a0 == aq as int) by {
                if anabs == 0 {
                    assert(an == 0);
                    assert(aq == 0) by (nonlinear_arith)
                        requires
                            0 == (dabs as int) * (aq as int) + (ar as int),
                            ar == 0,
                            dabs >= 1,
                            aq >= 0,
                    ;
                }
            }
        }
        if b_ok {
            assert(b0 == bq as int) by {
                if bnabs == 0 {
                    assert(bn == 0);
                    assert(bq == 0) by (nonlinear_arith)
                        requires
                            0 == (dabs as int) * (bq as int) + (br as int),
                            br == 0,
                            dabs >= 1,
                            bq >= 0,
                    ;
                }
            }
        }
    }
    if !a_ok || !b_ok {
        // the unique solution needs a negative press count
        proof {
            assert(a0 < 0 || b0 < 0) by {
                if !a_ok {
                    assert(anabs > 0 && an_pos != det_pos);
                    assert(a0 < 0) by (nonlinear_arith)
                        requires
                            anabs as int == (dabs as int) * (aq as int),
                            anabs > 0,
                            dabs >= 1,
                            aq >= 0,
                            a0 == -(aq as int),
                    ;
                } else {
                    assert(bnabs > 0 && bn_pos != det_pos);
                    assert(b0 < 0) by (nonlinear_arith)
                        requires
                            bnabs as int == (dabs as int) * (bq as int),
                            bnabs > 0,
                            dabs >= 1,
                            bq >= 0,
                            b0 == -(bq as int),
                    ;
                }
            }
            if good_solution(e, off) {
                let (a, b) = choose|a: int, b: int|
                    solves(e, off, a, b) && 0 <= a && 0 <= b && 3 * a + b <= u64::MAX;
                lemma_solution_unique(e, off, a, b, a0, b0);
                assert(false);
            }
            assert(eq_bad(e, off));
        }
        return None;
    }
    // both counts are the nonnegative quotients
    if aq > (u64::MAX as u128) || bq > (u64::MAX as u128) {
        proof {
            lemma_no_good_when_large(e, off, a0, b0);
        }
        return None;
    }
    let cost3 = 3u128 * aq + bq;
    if cost3 > u64::MAX as u128 {
        proof {
            lemma_no_good_when_large(e, off, a0, b0);
        }
        return None;
    }
    proof {
        assert(solves(e, off, a0, b0) && 0 <= a0 && 0 <= b0 && 3 * a0 + b0 <= u64::MAX);
        assert(good_solution(e, off));
        let (a, b) = choose|a: int, b: int|
            solves(e, off, a, b) && 0 <= a && 0 <= b && 3 * a + b <= u64::MAX;
        lemma_solution_unique(e, off, a, b, a0, b0);
        assert(eq_cost(e, off) == 3 * a0 + b0);
    }
    Some(cost3 as u64)
}

/// A solution whose cost leaves `u64` rules out any good one.
proof fn lemma_no_good_when_large(e: Equation, off: int, a0: int, b0: int)
    requires
        det_of(e) != 0,
        solves(e, off, a0, b0),
        a0 >= 0,
        b0 >= 0,
        3 * a0 + b0 > u64::MAX,
    ensures
        eq_bad(e, off),
{
    if good_solution(e, off) {
        let (a, b) = choose|a: int, b: int|
            solves(e, off, a, b) && 0 <= a && 0 <= b && 3 * a + b <= u64::MAX;
        lemma_solution_unique(e, off, a, b, a0, b0);
        assert(false);
    }
}

/// Two numbers split by a comma after a fixed-length prefix (the prefix
/// bytes themselves are not inspected) and a three-byte middle.
pub open spec fn pair_after(l: Seq<u8>, plen: int) -> Option<(int, int)> {
    if l.len() < plen {
        None
    } else {
        let body = l.skip(plen);
        let ci = find_sep(body, 44);
        if !(0 <= ci && ci + 4 <= body.len()) {
            None
        } else {
            let a = body.take(ci);
            let b = body.skip(ci + 4);
            if is_digits(a) && is_digits(b) && digits_val(a) <= u64::MAX && digits_val(b)
                <= u64::MAX {
                Some((digits_val(a), digits_val(b)))
            } else {
                None
            }
        }
    }
}

fn parse_pair(l: &Vec<u8>, plen: usize) -> (r: Option<(u64, u64)>)
    ensures
        match r {
            Some(p) => pair_after(l@, plen as int) == Some((p.0 as int, p.1 as int)),
            None => pair_after(l@, plen as int) is None,
        },
{
    if l.len() < plen {
        return None;
    }
    let body = crate::parse::sub_vec(l.as_slice(), plen, l.len());
    proof {
        assert(body@ =~= l@.skip(plen as int));
    }
    let ci = crate::parse::find_byte(body.as_slice(), 0, 44);
    proof {
        assert(body@.subrange(0, body@.len() as int) =~= body@);
    }
    if body.len() < 4 || ci > body.len() - 4 {
        return None;
    }
    let a = crate::parse::sub_vec(body.as_slice(), 0, ci);
    let b = crate::parse::sub_vec(body.as_slice(), ci + 4, body.len());
    proof {
        assert(a@ =~= body@.take(ci as int));
        assert(b@ =~= body@.skip(ci + 4));
    }
    match (parse_u64(a.as_slice()), parse_u64(b.as_slice())) {
        (Some(x), Some(y)) => Some((x, y)),
        _ => None,
    }
}

/// The machine a three-line block writes, when each line has its pair.
pub open spec fn block_equation(b: Seq<u8>) -> Option<Equation> {
    let ls = lines_spec(b);
    if ls.len() != 3 {
        None
    } else {
        match (pair_after(ls[0], 12), pair_after(ls[1], 12), pair_after(ls[2], 9)) {
            (Some(a), Some(bb), Some(p)) => Some(
                Equation {
                    ax: a.0 as u64,
                    ay: a.1 as u64,
                    bx: bb.0 as u64,
                    by: bb.1 as u64,
                    rx: p.0 as u64,
                    ry: p.1 as u64,
                },
            ),
            _ => None,
        }
    }
}

pub open spec fn eqs_parse(s: Seq<u8>) -> bool {
    forall|i: int|
        0 <= i < blocks_spec(s).len() ==> block_equation(#[trigger] blocks_spec(s)[i]) is Some
}

pub open spec fn eqs_of(s: Seq<u8>) -> Seq<Equation> {
    blocks_spec(s).map_values(|b: Seq<u8>| block_equation(b)->0)
}

/// Parse every machine, one blank-separated block each.
pub fn parse(input: &str) -> (r: Option<Vec<Equation>>)
    ensures
        match r {
            Some(v) => input.is_ascii() && eqs_parse(ascii_bytes(input@)) && v@ == eqs_of(
                ascii_bytes(input@),
            ),
            None => !input.is_ascii() || !eqs_parse(ascii_bytes(input@)),
        },
{
    if !input.is_ascii() {
        return None;
    }
    let bytes = bytes_of(input);
    let blocks = split_blocks(bytes.as_slice());
    let mut v: Vec<Equation> = Vec::new();
    let mut i: usize = 0;
    while i < blocks.len()
        invariant
            0 <= i <= blocks@.len(),
            input.is_ascii(),
            bytes@ == ascii_bytes(input@),
            blocks@.len() == blocks_spec(bytes@).len(),
            forall|t: int| 0 <= t < blocks@.len() ==> blocks[t]@ == blocks_spec(bytes@)[t],
            v@.len() == i,
            forall|t: int| 0 <= t < i ==> block_equation(#[trigger] blocks_spec(bytes@)[t]) is Some,
            forall|t: int| 0 <= t < i ==> v@[t] == block_equation(blocks_spec(bytes@)[t])->0,
        decreases blocks@.len() - i,
    {
        let lines = lines_of(&blocks[i]);
        let ghost bls = lines_spec(blocks_spec(bytes@)[i as int]);
        proof {
            assert(lines@.len() == bls.len());
        }
        if lines.len() != 3 {
            proof {
                assert(block_equation(blocks_spec(bytes@)[i as int]) is None);
            }
            return None;
        }
        proof {
            assert(lines[0]@ == bls[0] && lines[1]@ == bls[1] && lines[2]@ == bls[2]);
        }
        let a = match parse_pair(&lines[0], 12) {
            Some(p) => p,
            None => {
                proof {
                    assert(block_equation(blocks_spec(bytes@)[i as int]) is None);
                }
                return None;
            },
        };
        let bb = match parse_pair(&lines[1], 12) {
            Some(p) => p,
            None => {
                proof {
                    assert(block_equation(blocks_spec(bytes@)[i as int]) is None);
                }
                return None;
            },
        };
        let p = match parse_pair(&lines[2], 9) {
            Some(p) => p,
            None => {
                proof {
                    assert(block_equation(blocks_spec(bytes@)[i as int]) is None);
                }
                return None;
            },
        };
        v.push(
            Equation { ax: a.0, ay: a.1, bx: bb.0, by: bb.1, rx: p.0, ry: p.1 },
        );
        i += 1;
    }
    proof {
        assert(v@ =~= eqs_of(ascii_bytes(input@)));
    }
    Some(v)
}

/// Sum of the token costs of the first `k` machines.
pub open spec fn sum_costs(eqs: Seq<Equation>, off: int, k: int) -> int
    decreases k,
{
    if k <= 0 {
        0
    } else {
        sum_costs(eqs, off, k - 1) + eq_cost(eqs[k - 1], off)
    }
}

/// Some machine cannot be handled: a negative or oversize press count, or
/// a shifted prize beyond `u64`.
pub open spec fn some_eq_bad(eqs: Seq<Equation>, off: int) -> bool {
    exists|i: int|
        0 <= i < eqs.len() && (eq_bad(#[trigger] eqs[i], off) || eqs[i].rx + off > u64::MAX
            || eqs[i].ry + off > u64::MAX)
}

pub open spec fn tokens_spec(s: Seq<u8>, off: int) -> Option<u64> {
    if !eqs_parse(s) {
        None
    } else if some_eq_bad(eqs_of(s), off) {
        None
    } else if sum_costs(eqs_of(s), off, eqs_of(s).len() as int) > u64::MAX {
        None
    } else {
        Some(sum_costs(eqs_of(s), off, eqs_of(s).len() as int) as u64)
    }
}

pub open spec fn part_one_spec(s: Seq<u8>) -> Option<u64> {
    tokens_spec(s, 0)
}

pub open spec fn part_two_spec(s: Seq<u8>) -> Option<u64> {
    tokens_spec(s, 10000000000000)
}

fn solve(input: &str, offset: u64) -> (r: Option<u64>)
    ensures
        r == if input.is_ascii() {
            tokens_spec(ascii_bytes(input@), offset as int)
        } else {
            None::<u64>
        },
{
    let eqs = match parse(input) {
        Some(v) => v,
        None => {
            return None;
        },
    };
    let ghost es = eqs@;
    let mut acc: u64 = 0;
    let mut i: usize = 0;
    while i < eqs.len()
        invariant
            0 <= i <= eqs@.len(),
            eqs@ == es,
            input.is_ascii(),
            es == eqs_of(ascii_bytes(input@)),
            eqs_parse(ascii_bytes(input@)),
            forall|t: int|
                0 <= t < i ==> !(eq_bad(#[trigger] es[t], offset as int) || es[t].rx + offset
                    > u64::MAX || es[t].ry + offset > u64::MAX),
            acc == sum_costs(es, offset as int, i as int),
        decreases eqs@.len() - i,
    {
        let e = eqs[i];
        let c = match solve_equation(&e, offset) {
            Some(c) => c,
            None => {
                return None;
            },
        };
        match acc.checked_add(c) {
            Some(a) => {
                acc = a;
            },
            None => {
                proof {
                    lemma_sum_costs_prefix(es, offset as int, i + 1);
                }
                return None;
            },
        }
        i += 1;
    }
    proof {
        assert forall|t: int|
            0 <= t < es.len() implies !(eq_bad(#[trigger] es[t], offset as int) || es[t].rx
            + offset > u64::MAX || es[t].ry + offset > u64::MAX) by {}
    }
    Some(acc)
}

proof fn lemma_sum_costs_prefix(eqs: Seq<Equation>, off: int, k: int)
    requires
        0 <= k <= eqs.len(),
    ensures
        sum_costs(eqs, off, k) <= sum_costs(eqs, off, eqs.len() as int),
    decreases eqs.len() - k,
{
    if k < eqs.len() {
        lemma_sum_costs_prefix(eqs, off, k + 1);
        lemma_eq_cost_nonneg(eqs[k], off);
    }
}

proof fn lemma_eq_cost_nonneg(e: Equation, off: int)
    ensures
        eq_cost(e, off) >= 0,
{
}

/// Total token cost with the prizes where they stand.
pub fn part_one(input: &str) -> (r: Option<u64>)
    ensures
        r == if input.is_ascii() {
            part_one_spec(ascii_bytes(input@))
        } else {
            None::<u64>
        },
{
    solve(input, 0)
}

/// Total token cost with every prize ten trillion units further out.
pub fn part_two(input: &str) -> (r: Option<u64>)
    ensures
        r == if input.is_ascii() {
            part_two_spec(ascii_bytes(input@))
        } else {
            None::<u64>
        },
{
    solve(input, 10000000000000)
}

} // verus!
