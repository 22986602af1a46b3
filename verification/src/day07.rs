//! Calibration equations: each line names a target value and a list of
//! numbers.  Operators are applied left to right, and a running value that
//! overshoots the target ends that attempt.  Part one allows addition and
//! multiplication; part two also allows gluing the decimal digits together.

use vstd::prelude::*;

verus! {

use crate::parse::{
    ascii_bytes, bytes_of, digits_val, is_digits, lines_spec, lines_of, parse_u64, words_of,
    words_spec,
};

/// How many decimal digits `n` writes (one for zero).
pub open spec fn digits10(n: int) -> nat
    decreases n,
{
    if n < 10 {
        1
    } else {
        1 + digits10(n / 10)
    }
}

pub open spec fn pow10(d: nat) -> int
    decreases d,
{
    if d == 0 {
        1
    } else {
        10 * pow10((d - 1) as nat)
    }
}

/// The number written by the digits of `a` followed by the digits of `b`.
pub open spec fn glue(a: int, b: int) -> int {
    a * pow10(digits10(b)) + b
}

/// Some operator choice stays within `target` at every step and lands on
/// it exactly, starting from `acc` with the numbers of `rest` left.
pub open spec fn can_reach(target: int, acc: int, rest: Seq<u64>, merge: bool) -> bool
    decreases rest.len(),
{
    if rest.len() == 0 {
        acc == target
    } else {
        let n = rest[0] as int;
        ||| (acc + n <= target && can_reach(target, acc + n, rest.drop_first(), merge))
        ||| (acc * n <= target && can_reach(target, acc * n, rest.drop_first(), merge))
        ||| (merge && glue(acc, n) <= target && can_reach(
            target,
            glue(acc, n),
            rest.drop_first(),
            merge,
        ))
    }
}

/// An equation can be made true with addition and multiplication.
pub open spec fn solvable_plain(target: int, nums: Seq<u64>) -> bool {
    nums.len() >= 1 && can_reach(target, nums[0] as int, nums.drop_first(), false)
}

/// An equation can be made true when digit-gluing is allowed too; the
/// first number is taken as the start of the running value, and must not
/// itself overshoot.
pub open spec fn solvable_merge(target: int, nums: Seq<u64>) -> bool {
    nums.len() >= 1 && nums[0] <= target && can_reach(
        target,
        nums[0] as int,
        nums.drop_first(),
        true,
    )
}

/// The power of ten just above `n`: what a glued `n` shifts the running
/// value by.
fn shift_of(n: u64) -> (r: Option<u64>)
    ensures
        match r {
            Some(m) => m == pow10(digits10(n as int)),
            None => pow10(digits10(n as int)) > u64::MAX,
        },
{
    let mut m: u64 = 1;
    let mut t = n;
    let ghost gn = n as int;
    proof {
        assert(gn / 1int == gn);
    }
    loop
        invariant
            gn == n as int,
            m >= 1,
            m == pow10((digits10(gn) - digits10(t as int)) as nat),
            digits10(t as int) <= digits10(gn),
            t == gn / pow10((digits10(gn) - digits10(t as int)) as nat),
        ensures
            t < 10,
            m == pow10((digits10(gn) - 1) as nat),
        decreases t,
    {
        if t < 10 {
            proof {
                assert(digits10(t as int) == 1);
            }
            break;
        }
        match m.checked_mul(10) {
            Some(m2) => {
                proof {
                    lemma_digits10_step(gn, t as int, m as int);
                }
                m = m2;
                t = t / 10;
            },
            None => {
                proof {
                    lemma_digits10_step(gn, t as int, m as int);
                    lemma_pow10_mono(
                        (digits10(gn) - digits10(t as int) + 1) as nat,
                        digits10(gn),
                    );
                }
                return None;
            },
        }
    }
    match m.checked_mul(10) {
        Some(m2) => Some(m2),
        None => None,
    }
}

/// Dividing by ten removes exactly one digit.
proof fn lemma_digits10_step(gn: int, t: int, m: int)
    requires
        gn >= 0,
        t >= 10,
        digits10(t) <= digits10(gn),
        m == pow10((digits10(gn) - digits10(t)) as nat),
        t == gn / m,
        m >= 1,
    ensures
        digits10(t / 10) == digits10(t) - 1,
        t / 10 == gn / (m * 10),
        m * 10 == pow10((digits10(gn) - digits10(t) + 1) as nat),
        digits10(t / 10) <= digits10(gn),
        pow10((digits10(gn) - digits10(t / 10)) as nat) == m * 10,
{
    assert(digits10(t) == 1 + digits10(t / 10));
    assert(t / 10 == (gn / m) / 10);
    assert((gn / m) / 10 == gn / (m * 10)) by (nonlinear_arith)
        requires
            m >= 1,
            gn >= 0,
    ;
    assert(pow10((digits10(gn) - digits10(t) + 1) as nat) == 10 * pow10(
        (digits10(gn) - digits10(t)) as nat,
    ));
}

proof fn lemma_pow10_mono(a: nat, b: nat)
    requires
        a <= b,
    ensures
        pow10(a) <= pow10(b),
        pow10(a) >= 1,
    decreases b,
{
    if a < b {
        lemma_pow10_mono(a, (b - 1) as nat);
        assert(pow10(b) == 10 * pow10((b - 1) as nat));
    } else {
        lemma_pow10_pos(a);
    }
}

proof fn lemma_pow10_pos(a: nat)
    ensures
        pow10(a) >= 1,
    decreases a,
{
    if a > 0 {
        lemma_pow10_pos((a - 1) as nat);
    }
}

/// Search all operator choices from `acc` over `nums[i..]`.
fn reach_from(target: u64, acc: u64, nums: &[u64], i: usize, merge: bool) -> (r: bool)
    requires
        i <= nums@.len(),
    ensures
        r == can_reach(target as int, acc as int, nums@.skip(i as int), merge),
    decreases nums@.len() - i,
{
    proof {
        assert(nums@.skip(i as int).len() == nums@.len() - i);
    }
    if i == nums.len() {
        return acc == target;
    }
    let n = nums[i];
    proof {
        assert(nums@.skip(i as int)[0] == nums@[i as int]);
        assert(nums@.skip(i as int).drop_first() =~= nums@.skip(i + 1));
    }
    match acc.checked_add(n) {
        Some(a) => {
            if a <= target && reach_from(target, a, nums, i + 1, merge) {
                return true;
            }
        },
        None => {},
    }
    match acc.checked_mul(n) {
        Some(a) => {
            if a <= target && reach_from(target, a, nums, i + 1, merge) {
                return true;
            }
        },
        None => {},
    }
    if merge {
        match shift_of(n) {
            Some(m) => {
                proof {
                    lemma_pow10_pos(digits10(n as int));
                }
                match acc.checked_mul(m) {
                    Some(am) => {
                        match am.checked_add(n) {
                            Some(a) => {
                                if a <= target && reach_from(target, a, nums, i + 1, merge) {
                                    return true;
                                }
                            },
                            None => {},
                        }
                    },
                    None => {
                        proof {
                            assert(glue(acc as int, n as int) > u64::MAX) by (nonlinear_arith)
                                requires
                                    acc * (m as int) > u64::MAX,
                                    glue(acc as int, n as int) == acc * (m as int) + n,
                                    n >= 0,
                            ;
                        }
                    },
                }
            },
            None => {
                proof {
                    lemma_glue_big(acc as int, n as int);
                }
            },
        }
    }
    false
}

/// When the shift alone exceeds `u64`, so does any glued value.
proof fn lemma_glue_big(acc: int, n: int)
    requires
        acc >= 0,
        n >= 0,
        pow10(digits10(n)) > u64::MAX,
    ensures
        glue(acc, n) > u64::MAX || acc == 0,
{
    if acc > 0 {
        assert(acc * pow10(digits10(n)) >= pow10(digits10(n))) by (nonlinear_arith)
            requires
                acc >= 1,
                pow10(digits10(n)) >= 0,
        ;
    }
}

/// Whether the equation holds for some operator choice, gluing allowed.
pub fn can_be_made_true_with_merge(result: u64, numbers: &[u64]) -> (r: bool)
    requires
        numbers@.len() >= 1,
    ensures
        r == solvable_merge(result as int, numbers@),
{
    let first = numbers[0];
    proof {
        assert(numbers@.skip(1) =~= numbers@.drop_first());
    }
    if first > result {
        return false;
    }
    reach_from(result, first, numbers, 1, true)
}

/// Whether the equation holds with addition and multiplication alone.
/// The first number starts the running value unchecked.
fn can_be_made_true_plain(result: u64, numbers: &[u64]) -> (r: bool)
    requires
        numbers@.len() >= 1,
    ensures
        r == solvable_plain(result as int, numbers@),
{
    let first = numbers[0];
    proof {
        assert(numbers@.skip(1) =~= numbers@.drop_first());
    }
    reach_from(result, first, numbers, 1, false)
}

/// The target and numbers of one line, when it parses: the first word with
/// its final byte cut off is the target, the rest are the numbers.
pub open spec fn line_parses(l: Seq<u8>) -> bool {
    let ws = words_spec(l);
    &&& ws.len() >= 2
    &&& ws[0].len() >= 2
    &&& is_digits(ws[0].drop_last())
    &&& digits_val(ws[0].drop_last()) <= u64::MAX
    &&& forall|i: int|
        1 <= i < ws.len() ==> is_digits(#[trigger] ws[i]) && digits_val(ws[i]) <= u64::MAX
}

pub open spec fn line_target(l: Seq<u8>) -> int {
    digits_val(words_spec(l)[0].drop_last())
}

pub open spec fn line_numbers(l: Seq<u8>) -> Seq<u64> {
    words_spec(l).drop_first().map_values(|wd: Seq<u8>| digits_val(wd) as u64)
}

pub open spec fn day_ok(s: Seq<u8>) -> bool {
    forall|i: int| 0 <= i < lines_spec(s).len() ==> line_parses(#[trigger] lines_spec(s)[i])
}

/// Sum of the targets of the solvable equations among the first `k` lines.
pub open spec fn sum_solvable(ls: Seq<Seq<u8>>, k: int, merge: bool) -> int
    decreases k,
{
    if k <= 0 {
        0
    } else {
        let solv = if merge {
            solvable_merge(line_target(ls[k - 1]), line_numbers(ls[k - 1]))
        } else {
            solvable_plain(line_target(ls[k - 1]), line_numbers(ls[k - 1]))
        };
        sum_solvable(ls, k - 1, merge) + if solv {
            line_target(ls[k - 1])
        } else {
            0int
        }
    }
}

pub open spec fn part_one_spec(s: Seq<u8>) -> Option<u64> {
    if !day_ok(s) {
        None
    } else {
        let total = sum_solvable(lines_spec(s), lines_spec(s).len() as int, false);
        if total <= u64::MAX {
            Some(total as u64)
        } else {
            None
        }
    }
}

pub open spec fn part_two_spec(s: Seq<u8>) -> Option<u64> {
    if !day_ok(s) {
        None
    } else {
        let total = sum_solvable(lines_spec(s), lines_spec(s).len() as int, true);
        if total <= u64::MAX {
            Some(total as u64)
        } else {
            None
        }
    }
}

/// Parse one line into its target and numbers.
fn parse_line(l: &Vec<u8>) -> (r: Option<(u64, Vec<u64>)>)
    ensures
        match r {
            Some(p) => line_parses(l@) && p.0 == line_target(l@) && p.1@ == line_numbers(l@)
                && p.1@.len() >= 1,
            None => !line_parses(l@),
        },
{
    let words = words_of(l.as_slice());
    if words.len() < 2 {
        return None;
    }
    let w0 = &words[0];
    if w0.len() < 2 {
        return None;
    }
    let head = crate::parse::sub_vec(w0.as_slice(), 0, w0.len() - 1);
    proof {
        assert(head@ =~= words_spec(l@)[0].drop_last());
    }
    let target = match parse_u64(head.as_slice()) {
        Some(t) => t,
        None => {
            return None;
        },
    };
    let mut nums: Vec<u64> = Vec::new();
    let mut k: usize = 1;
    while k < words.len()
        invariant
            1 <= k <= words@.len(),
            words@.len() == words_spec(l@).len(),
            forall|t: int| 0 <= t < words@.len() ==> words[t]@ == words_spec(l@)[t],
            forall|t: int|
                1 <= t < k ==> is_digits(#[trigger] words_spec(l@)[t]) && digits_val(
                    words_spec(l@)[t],
                ) <= u64::MAX,
            nums@.len() == k - 1,
            forall|t: int| 0 <= t < k - 1 ==> nums@[t] == digits_val(words_spec(l@)[t + 1]),
        decreases words@.len() - k,
    {
        match parse_u64(words[k].as_slice()) {
            Some(x) => {
                nums.push(x);
            },
            None => {
                proof {
                    assert(!(is_digits(words_spec(l@)[k as int]) && digits_val(
                        words_spec(l@)[k as int],
                    ) <= u64::MAX));
                }
                return None;
            },
        }
        k += 1;
    }
    proof {
        assert(nums@ =~= line_numbers(l@));
    }
    Some((target, nums))
}

/// Sum of the targets reachable with addition and multiplication.
pub fn part_one(input: &str) -> (r: Option<u64>)
    ensures
        r == if input.is_ascii() {
            part_one_spec(ascii_bytes(input@))
        } else {
            None::<u64>
        },
{
    solve(input, false)
}

/// Sum of the targets reachable when digit-gluing is allowed too.
pub fn part_two(input: &str) -> (r: Option<u64>)
    ensures
        r == if input.is_ascii() {
            part_two_spec(ascii_bytes(input@))
        } else {
            None::<u64>
        },
{
    solve(input, true)
}

fn solve(input: &str, merge: bool) -> (r: Option<u64>)
    ensures
        r == if input.is_ascii() {
            if merge {
                part_two_spec(ascii_bytes(input@))
            } else {
                part_one_spec(ascii_bytes(input@))
            }
        } else {
            None::<u64>
        },
{
    if !input.is_ascii() {
        return None;
    }
    let bytes = bytes_of(input);
    let lines = lines_of(&bytes);
    let ghost ls = lines_spec(bytes@);
    let mut acc: u64 = 0;
    let mut k: usize = 0;
    while k < lines.len()
        invariant
            0 <= k <= lines@.len(),
            input.is_ascii(),
            ls == lines_spec(ascii_bytes(input@)),
            lines@.len() == ls.len(),
            forall|t: int| 0 <= t < ls.len() ==> lines@[t]@ == ls[t],
            forall|t: int| 0 <= t < k ==> line_parses(#[trigger] ls[t]),
            acc == sum_solvable(ls, k as int, merge),
        decreases lines@.len() - k,
    {
        let (target, nums) = match parse_line(&lines[k]) {
            Some(p) => p,
            None => {
                proof {
                    assert(!line_parses(ls[k as int]));
                }
                return None;
            },
        };
        let solv = if merge {
            can_be_made_true_with_merge(target, nums.as_slice())
        } else {
            can_be_made_true_plain(target, nums.as_slice())
        };
        if solv {
            match acc.checked_add(target) {
                Some(a) => {
                    acc = a;
                },
                None => {
                    proof {
                        lemma_sum_prefix(ls, k + 1, merge);
                    }
                    return None;
                },
            }
        }
        k += 1;
    }
    Some(acc)
}

proof fn lemma_sum_prefix(ls: Seq<Seq<u8>>, k: int, merge: bool)
    requires
        0 <= k <= ls.len(),
    ensures
        (forall|t: int| 0 <= t < ls.len() ==> line_parses(#[trigger] ls[t]))
            ==> sum_solvable(ls, k, merge) <= sum_solvable(ls, ls.len() as int, merge),
    decreases ls.len() - k,
{
    if k < ls.len() {
        lemma_sum_prefix(ls, k + 1, merge);
        if forall|t: int| 0 <= t < ls.len() ==> line_parses(#[trigger] ls[t]) {
            lemma_target_nonneg(ls[k]);
        }
    }
}

proof fn lemma_target_nonneg(l: Seq<u8>)
    requires
        line_parses(l),
    ensures
        line_target(l) >= 0,
{
    crate::parse::lemma_digits_val_nonneg(words_spec(l)[0].drop_last());
}

} // verus!
