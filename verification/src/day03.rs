//! Corrupted program memory: scan the raw text for `mul(a,b)`
//! instructions and sum the products.  Part two also honours `do()` and
//! `don't()` switches that enable and disable the multiplications.

use vstd::prelude::*;

verus! {

use crate::parse::{ascii_bytes, bytes_of, digits_val, is_digits};

/// The first position at or after `j` that does not hold a digit.
pub open spec fn digits_end(s: Seq<u8>, j: int) -> int
    decreases s.len() - j,
{
    if j < 0 || j >= s.len() || !(48 <= s[j] <= 57) {
        j
    } else {
        digits_end(s, j + 1)
    }
}

proof fn lemma_digits_end(s: Seq<u8>, j: int)
    requires
        0 <= j <= s.len(),
    ensures
        j <= digits_end(s, j) <= s.len(),
        forall|q: int| j <= q < digits_end(s, j) ==> 48 <= #[trigger] s[q] <= 57,
        digits_end(s, j) < s.len() ==> !(48 <= s[digits_end(s, j)] <= 57),
    decreases s.len() - j,
{
    if j < s.len() && 48 <= s[j] <= 57 {
        lemma_digits_end(s, j + 1);
    }
}

/// A `mul(a,b)` instruction starting at `i`: its two numbers and the
/// position just after its closing parenthesis.  The numbers must be
/// digit runs whose values fit `u32`.
pub open spec fn mul_at(s: Seq<u8>, i: int) -> Option<(int, int, int)> {
    if !(0 <= i && i + 4 <= s.len() && s[i] == 109 && s[i + 1] == 117 && s[i + 2] == 108 && s[i
        + 3] == 40) {
        None
    } else {
        let j1 = digits_end(s, i + 4);
        let a = s.subrange(i + 4, j1);
        if !(a.len() > 0 && digits_val(a) <= u32::MAX && j1 < s.len() && s[j1] == 44) {
            None
        } else {
            let j2 = digits_end(s, j1 + 1);
            let b = s.subrange(j1 + 1, j2);
            if !(b.len() > 0 && digits_val(b) <= u32::MAX && j2 < s.len() && s[j2] == 41) {
                None
            } else {
                Some((digits_val(a), digits_val(b), j2 + 1))
            }
        }
    }
}

/// The byte at `i` opens a `do()` switch.
pub open spec fn do_at(s: Seq<u8>, i: int) -> bool {
    0 <= i && i + 4 <= s.len() && s[i] == 100 && s[i + 1] == 111 && s[i + 2] == 40 && s[i + 3]
        == 41
}

/// The byte at `i` opens a `don't()` switch.
pub open spec fn dont_at(s: Seq<u8>, i: int) -> bool {
    0 <= i && i + 7 <= s.len() && s[i] == 100 && s[i + 1] == 111 && s[i + 2] == 110 && s[i + 3]
        == 39 && s[i + 4] == 116 && s[i + 5] == 40 && s[i + 6] == 41
}

/// Sum of the products of every `mul` found scanning from `i`.
pub open spec fn sum_muls(s: Seq<u8>, i: int) -> int
    decreases s.len() - i,
{
    if i < 0 || i >= s.len() {
        0
    } else {
        match mul_at(s, i) {
            Some(m) => if m.2 > i {
                m.0 * m.1 + sum_muls(s, m.2)
            } else {
                sum_muls(s, i + 1)
            },
            None => sum_muls(s, i + 1),
        }
    }
}

/// Sum of the enabled products scanning from `i`: `don't()` mutes the
/// multiplications and `do()` unmutes them.
pub open spec fn sum_switched(s: Seq<u8>, i: int, on: bool) -> int
    decreases s.len() - i,
{
    if i < 0 || i >= s.len() {
        0
    } else if dont_at(s, i) {
        sum_switched(s, i + 7, false)
    } else if do_at(s, i) {
        sum_switched(s, i + 4, true)
    } else {
        match mul_at(s, i) {
            Some(m) => if m.2 > i {
                (if on {
                    m.0 * m.1
                } else {
                    0int
                }) + sum_switched(s, m.2, on)
            } else {
                sum_switched(s, i + 1, on)
            },
            None => sum_switched(s, i + 1, on),
        }
    }
}

pub open spec fn part_one_spec(s: Seq<u8>) -> Option<u32> {
    if sum_muls(s, 0) <= u32::MAX {
        Some(sum_muls(s, 0) as u32)
    } else {
        None
    }
}

pub open spec fn part_two_spec(s: Seq<u8>) -> Option<u32> {
    if sum_switched(s, 0, true) <= u32::MAX {
        Some(sum_switched(s, 0, true) as u32)
    } else {
        None
    }
}

/// Find the end of the digit run starting at `j`.
fn digits_end_exec(s: &[u8], j: usize) -> (r: usize)
    requires
        j <= s@.len(),
    ensures
        r == digits_end(s@, j as int),
        j <= r <= s@.len(),
{
    proof {
        lemma_digits_end(s@, j as int);
    }
    let n = s.len();
    let mut q = j;
    while q < n
        invariant
            j <= q <= n,
            n == s@.len(),
            forall|t: int| j <= t < q ==> 48 <= #[trigger] s@[t] <= 57,
        decreases n - q,
    {
        let b = s[q];
        if b < 48 || b > 57 {
            proof {
                lemma_digits_end_at(s@, j as int, q as int);
            }
            return q;
        }
        q += 1;
    }
    proof {
        lemma_digits_end_at(s@, j as int, n as int);
    }
    n
}

proof fn lemma_digits_end_at(s: Seq<u8>, j: int, at: int)
    requires
        0 <= j <= at <= s.len(),
        forall|t: int| j <= t < at ==> 48 <= #[trigger] s[t] <= 57,
        at < s.len() ==> !(48 <= s[at] <= 57),
    ensures
        digits_end(s, j) == at,
    decreases at - j,
{
    if j < at {
        lemma_digits_end_at(s, j + 1, at);
    }
}

/// Decode a `mul` instruction at `i`, as `mul_at` describes.
fn try_mul(s: &[u8], i: usize) -> (r: Option<(u32, u32, usize)>)
    requires
        i < s@.len(),
    ensures
        match r {
            Some(m) => mul_at(s@, i as int) == Some((m.0 as int, m.1 as int, m.2 as int)) && i
                < m.2 <= s@.len(),
            None => mul_at(s@, i as int) is None,
        },
{
    let n = s.len();
    if n - i < 4 || s[i] != 109 || s[i + 1] != 117 || s[i + 2] != 108 || s[i + 3] != 40 {
        return None;
    }
    let j1 = digits_end_exec(s, i + 4);
    proof {
        lemma_digits_end(s@, i + 4);
    }
    let a = crate::parse::sub_vec(s, i + 4, j1);
    let av = match crate::parse::parse_u64(a.as_slice()) {
        Some(v) => v,
        None => {
            return None;
        },
    };
    if av > u32::MAX as u64 || j1 >= n {
        return None;
    }
    if s[j1] != 44 {
        return None;
    }
    let j2 = digits_end_exec(s, j1 + 1);
    proof {
        lemma_digits_end(s@, j1 + 1);
    }
    let b = crate::parse::sub_vec(s, j1 + 1, j2);
    let bv = match crate::parse::parse_u64(b.as_slice()) {
        Some(v) => v,
        None => {
            return None;
        },
    };
    if bv > u32::MAX as u64 || j2 >= n {
        return None;
    }
    if s[j2] != 41 {
        return None;
    }
    Some((av as u32, bv as u32, j2 + 1))
}

fn scan(input: &str, switched: bool) -> (r: Option<u32>)
    ensures
        r == if input.is_ascii() {
            if switched {
                part_two_spec(ascii_bytes(input@))
            } else {
                part_one_spec(ascii_bytes(input@))
            }
        } else {
            None::<u32>
        },
{
    if !input.is_ascii() {
        return None;
    }
    let bytes = bytes_of(input);
    let s = bytes.as_slice();
    let n = s.len();
    let mut acc: u64 = 0;
    let mut on = true;
    let mut i: usize = 0;
    while i < n
        invariant
            0 <= i <= n,
            input.is_ascii(),
            s@ == ascii_bytes(input@),
            n == s@.len(),
            acc <= u32::MAX,
            switched ==> sum_switched(s@, 0, true) == acc + sum_switched(s@, i as int, on),
            !switched ==> on && sum_muls(s@, 0) == acc + sum_muls(s@, i as int),
        decreases n - i,
    {
        if switched && n - i >= 7 && s[i] == 100 && s[i + 1] == 111 && s[i + 2] == 110 && s[i
            + 3] == 39 && s[i + 4] == 116 && s[i + 5] == 40 && s[i + 6] == 41 {
            proof {
                assert(dont_at(s@, i as int));
            }
            on = false;
            i += 7;
        } else if switched && n - i >= 4 && s[i] == 100 && s[i + 1] == 111 && s[i + 2] == 40
            && s[i + 3] == 41 {
            proof {
                assert(!dont_at(s@, i as int));
                assert(do_at(s@, i as int));
            }
            on = true;
            i += 4;
        } else {
            proof {
                if switched {
                    assert(!dont_at(s@, i as int) && !do_at(s@, i as int));
                }
            }
            match try_mul(s, i) {
                Some((a, b, next)) => {
                    if on {
                        proof {
                            assert((a as int) * (b as int) <= 0xFFFF_FFFE_0000_0001)
                                by (nonlinear_arith)
                                requires
                                    0 <= a <= u32::MAX,
                                    0 <= b <= u32::MAX,
                            ;
                        }
                        let prod = (a as u64) * (b as u64);
                        let sum = acc + prod;
                        if sum > u32::MAX as u64 {
                            proof {
                                if switched {
                                    lemma_switched_nonneg(s@, next as int, on);
                                } else {
                                    lemma_muls_nonneg(s@, next as int);
                                }
                            }
                            return None;
                        }
                        acc = sum;
                    }
                    i = next;
                },
                None => {
                    i += 1;
                },
            }
        }
    }
    Some(acc as u32)
}

proof fn lemma_muls_nonneg(s: Seq<u8>, i: int)
    ensures
        sum_muls(s, i) >= 0,
    decreases s.len() - i,
{
    if 0 <= i < s.len() {
        match mul_at(s, i) {
            Some(m) => {
                if m.2 > i {
                    lemma_muls_nonneg(s, m.2);
                    lemma_mul_prod_nonneg(s, i);
                } else {
                    lemma_muls_nonneg(s, i + 1);
                }
            },
            None => {
                lemma_muls_nonneg(s, i + 1);
            },
        }
    }
}

proof fn lemma_switched_nonneg(s: Seq<u8>, i: int, on: bool)
    ensures
        sum_switched(s, i, on) >= 0,
    decreases s.len() - i,
{
    if 0 <= i < s.len() {
        if dont_at(s, i) {
            lemma_switched_nonneg(s, i + 7, false);
        } else if do_at(s, i) {
            lemma_switched_nonneg(s, i + 4, true);
        } else {
            match mul_at(s, i) {
                Some(m) => {
                    if m.2 > i {
                        lemma_switched_nonneg(s, m.2, on);
                        lemma_mul_prod_nonneg(s, i);
                    } else {
                        lemma_switched_nonneg(s, i + 1, on);
                    }
                },
                None => {
                    lemma_switched_nonneg(s, i + 1, on);
                },
            }
        }
    }
}

/// The two numbers of a decoded `mul` multiply to something nonnegative.
proof fn lemma_mul_prod_nonneg(s: Seq<u8>, i: int)
    requires
        mul_at(s, i) is Some,
    ensures
        (mul_at(s, i)->0).0 * (mul_at(s, i)->0).1 >= 0,
{
    let m = mul_at(s, i)->0;
    let j1 = digits_end(s, i + 4);
    let j2 = digits_end(s, j1 + 1);
    lemma_digits_end(s, i + 4);
    lemma_digits_end(s, j1 + 1);
    let a = s.subrange(i + 4, j1);
    let b = s.subrange(j1 + 1, j2);
    assert forall|q: int| 0 <= q < a.len() implies 48 <= #[trigger] a[q] <= 57 by {
        assert(a[q] == s[i + 4 + q]);
    }
    assert forall|q: int| 0 <= q < b.len() implies 48 <= #[trigger] b[q] <= 57 by {
        assert(b[q] == s[j1 + 1 + q]);
    }
    crate::parse::lemma_digits_val_nonneg(a);
    crate::parse::lemma_digits_val_nonneg(b);
    assert(m.0 * m.1 >= 0) by (nonlinear_arith)
        requires
            m.0 >= 0,
            m.1 >= 0,
    ;
}

/// Sum of all multiplication instructions in the memory.
pub fn part_one(input: &str) -> (r: Option<u32>)
    ensures
        r == if input.is_ascii() {
            part_one_spec(ascii_bytes(input@))
        } else {
            None::<u32>
        },
{
    scan(input, false)
}

/// Sum of the multiplications the switches leave enabled.
pub fn part_two(input: &str) -> (r: Option<u32>)
    ensures
        r == if input.is_ascii() {
            part_two_spec(ascii_bytes(input@))
        } else {
            None::<u32>
        },
{
    scan(input, true)
}

} // verus!
