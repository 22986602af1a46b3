//! Reactor reports: one sequence of levels per line.  A report is safe when
//! its steps all climb by 1 to 3, or all fall by 1 to 3.  Part one counts
//! the safe reports; part two also accepts reports that one removal fixes.

use vstd::prelude::*;

verus! {

use crate::parse::{
    ascii_bytes, bytes_of, digits_val, is_digits, lines_spec, lines_of, parse_u32, words_of,
    words_spec,
};

/// Every step climbs by 1 to 3.
pub open spec fn all_up(s: Seq<u32>) -> bool {
    forall|i: int| 0 <= i < s.len() - 1 ==> 1 <= #[trigger] s[i + 1] - s[i] <= 3
}

/// Every step falls by 1 to 3.
pub open spec fn all_down(s: Seq<u32>) -> bool {
    forall|i: int| 0 <= i < s.len() - 1 ==> 1 <= #[trigger] s[i] - s[i + 1] <= 3
}

/// The report is safe: strictly monotone with steps of 1 to 3.
pub open spec fn safe(s: Seq<u32>) -> bool {
    all_up(s) || all_down(s)
}

/// Removing a single level makes the report safe.
pub open spec fn can_fix(s: Seq<u32>) -> bool {
    exists|i: int| 0 <= i < s.len() && safe(#[trigger] s.remove(i))
}

/// Whether the report is safe as it stands.
pub fn is_safe(seq: &[u32]) -> (r: bool)
    requires
        seq@.len() >= 2,
    ensures
        r == safe(seq@),
{
    let n = seq.len();
    let mut up = true;
    let mut down = true;
    let mut i: usize = 0;
    while i + 1 < n
        invariant
            0 <= i <= n - 1,
            n == seq@.len(),
            n >= 2,
            up == (forall|j: int| 0 <= j < i ==> 1 <= #[trigger] seq@[j + 1] - seq@[j] <= 3),
            down == (forall|j: int| 0 <= j < i ==> 1 <= #[trigger] seq@[j] - seq@[j + 1] <= 3),
        decreases n - i,
    {
        let a = seq[i];
        let b = seq[i + 1];
        up = up && (b > a && b - a <= 3);
        down = down && (a > b && a - b <= 3);
        i += 1;
    }
    up || down
}

/// Whether one removal makes the report safe.
pub fn can_be_made_safe(seq: &[u32]) -> (r: bool)
    requires
        seq@.len() >= 3,
    ensures
        r == can_fix(seq@),
{
    let n = seq.len();
    let mut i: usize = 0;
    while i < n
        invariant
            0 <= i <= n,
            n == seq@.len(),
            n >= 3,
            forall|j: int| 0 <= j < i ==> !safe(#[trigger] seq@.remove(j)),
        decreases n - i,
    {
        let mut t: Vec<u32> = Vec::new();
        let mut k: usize = 0;
        while k < n
            invariant
                0 <= k <= n,
                n == seq@.len(),
                i < n,
                t@ == if k <= i {
                    seq@.take(k as int)
                } else {
                    seq@.remove(i as int).take(k - 1)
                },
            decreases n - k,
        {
            if k != i {
                proof {
                    if k < i {
                        assert(seq@.take(k + 1).drop_last() =~= seq@.take(k as int));
                        assert(seq@.take(k + 1) =~= seq@.take(k as int).push(seq@[k as int]));
                    } else {
                        assert(seq@.remove(i as int).take(k as int) =~= seq@.remove(
                            i as int,
                        ).take(k - 1).push(seq@[k as int]));
                    }
                }
                t.push(seq[k]);
            } else {
                proof {
                    assert(seq@.remove(i as int).take(k as int) =~= seq@.take(k as int));
                }
            }
            k += 1;
        }
        proof {
            assert(seq@.remove(i as int).take(n - 1) =~= seq@.remove(i as int));
        }
        if is_safe(t.as_slice()) {
            return true;
        }
        i += 1;
    }
    false
}

/// The numbers on one line; meaningful when the line parses.
pub open spec fn line_nums(l: Seq<u8>) -> Seq<u32> {
    words_spec(l).map_values(|wd: Seq<u8>| digits_val(wd) as u32)
}

/// Every word of the line is a number fitting `u32`.
pub open spec fn line_parses(l: Seq<u8>) -> bool {
    forall|i: int|
        0 <= i < words_spec(l).len() ==> is_digits(#[trigger] words_spec(l)[i]) && digits_val(
            words_spec(l)[i],
        ) <= u32::MAX
}

/// The inputs both parts accept: every line parses into at least two
/// levels.
pub open spec fn day_ok(s: Seq<u8>) -> bool {
    forall|i: int|
        0 <= i < lines_spec(s).len() ==> line_parses(#[trigger] lines_spec(s)[i]) && line_nums(
            lines_spec(s)[i],
        ).len() >= 2
}

/// Part two additionally needs three levels wherever a fix may be tried.
pub open spec fn day_ok_two(s: Seq<u8>) -> bool {
    day_ok(s) && forall|i: int|
        0 <= i < lines_spec(s).len() ==> safe(line_nums(#[trigger] lines_spec(s)[i]))
            || line_nums(lines_spec(s)[i]).len() >= 3
}

/// How many of the first `k` lines satisfy `pred`-style safety; counted
/// over `safe` alone for part one.
pub open spec fn count_safe(ls: Seq<Seq<u8>>, k: int) -> int
    decreases k,
{
    if k <= 0 {
        0
    } else {
        count_safe(ls, k - 1) + if safe(line_nums(ls[k - 1])) {
            1int
        } else {
            0int
        }
    }
}

/// Lines that are safe or that one removal fixes, among the first `k`.
pub open spec fn count_fixable(ls: Seq<Seq<u8>>, k: int) -> int
    decreases k,
{
    if k <= 0 {
        0
    } else {
        count_fixable(ls, k - 1) + if safe(line_nums(ls[k - 1])) || can_fix(
            line_nums(ls[k - 1]),
        ) {
            1int
        } else {
            0int
        }
    }
}

/// What part one answers: the number of safe reports.
pub open spec fn part_one_spec(s: Seq<u8>) -> Option<u32> {
    if !day_ok(s) {
        None
    } else if count_safe(lines_spec(s), lines_spec(s).len() as int) > u32::MAX {
        None
    } else {
        Some(count_safe(lines_spec(s), lines_spec(s).len() as int) as u32)
    }
}

/// What part two answers: the number of safe-or-fixable reports.
pub open spec fn part_two_spec(s: Seq<u8>) -> Option<u32> {
    if !day_ok_two(s) {
        None
    } else if count_fixable(lines_spec(s), lines_spec(s).len() as int) > u32::MAX {
        None
    } else {
        Some(count_fixable(lines_spec(s), lines_spec(s).len() as int) as u32)
    }
}

/// Parse one line of levels; `None` when a word is not a `u32`.
fn parse_line(l: &Vec<u8>) -> (r: Option<Vec<u32>>)
    ensures
        match r {
            Some(v) => line_parses(l@) && v@ == line_nums(l@),
            None => !line_parses(l@),
        },
{
    let words = words_of(l.as_slice());
    let mut v: Vec<u32> = Vec::new();
    let mut k: usize = 0;
    while k < words.len()
        invariant
            0 <= k <= words@.len(),
            words@.len() == words_spec(l@).len(),
            forall|t: int| 0 <= t < words@.len() ==> words[t]@ == words_spec(l@)[t],
            forall|t: int|
                0 <= t < k ==> is_digits(#[trigger] words_spec(l@)[t]) && digits_val(
                    words_spec(l@)[t],
                ) <= u32::MAX,
            v@.len() == k,
            forall|t: int| 0 <= t < k ==> v@[t] == digits_val(words_spec(l@)[t]),
        decreases words@.len() - k,
    {
        match parse_u32(words[k].as_slice()) {
            Some(x) => {
                v.push(x);
            },
            None => {
                proof {
                    assert(!(is_digits(words_spec(l@)[k as int]) && digits_val(
                        words_spec(l@)[k as int],
                    ) <= u32::MAX));
                }
                return None;
            },
        }
        k += 1;
    }
    proof {
        assert(v@ =~= line_nums(l@));
    }
    Some(v)
}

/// The number of safe reports.
pub fn part_one(input: &str) -> (r: Option<u32>)
    ensures
        r == if input.is_ascii() {
            part_one_spec(ascii_bytes(input@))
        } else {
            None::<u32>
        },
{
    if !input.is_ascii() {
        return None;
    }
    let bytes = bytes_of(input);
    let lines = lines_of(&bytes);
    let ghost ls = lines_spec(bytes@);
    let mut count: usize = 0;
    let mut k: usize = 0;
    while k < lines.len()
        invariant
            0 <= k <= lines@.len(),
            input.is_ascii(),
            ls == lines_spec(ascii_bytes(input@)),
            lines@.len() == ls.len(),
            forall|t: int| 0 <= t < ls.len() ==> lines@[t]@ == ls[t],
            forall|t: int|
                0 <= t < k ==> line_parses(#[trigger] ls[t]) && line_nums(ls[t]).len() >= 2,
            count == count_safe(ls, k as int),
            count <= k,
        decreases lines@.len() - k,
    {
        let nums = match parse_line(&lines[k]) {
            Some(v) => v,
            None => {
                proof {
                    assert(!line_parses(ls[k as int]));
                }
                return None;
            },
        };
        if nums.len() < 2 {
            proof {
                assert(line_nums(ls[k as int]).len() < 2);
            }
            return None;
        }
        if is_safe(nums.as_slice()) {
            count += 1;
        }
        k += 1;
    }
    if count > u32::MAX as usize {
        return None;
    }
    Some(count as u32)
}

/// The number of reports that are safe or that one removal fixes.
pub fn part_two(input: &str) -> (r: Option<u32>)
    ensures
        r == if input.is_ascii() {
            part_two_spec(ascii_bytes(input@))
        } else {
            None::<u32>
        },
{
    if !input.is_ascii() {
        return None;
    }
    let bytes = bytes_of(input);
    let lines = lines_of(&bytes);
    let ghost ls = lines_spec(bytes@);
    let mut count: usize = 0;
    let mut k: usize = 0;
    while k < lines.len()
        invariant
            0 <= k <= lines@.len(),
            input.is_ascii(),
            ls == lines_spec(ascii_bytes(input@)),
            lines@.len() == ls.len(),
            forall|t: int| 0 <= t < ls.len() ==> lines@[t]@ == ls[t],
            forall|t: int|
                0 <= t < k ==> line_parses(#[trigger] ls[t]) && line_nums(ls[t]).len() >= 2
                    && (safe(line_nums(ls[t])) || line_nums(ls[t]).len() >= 3),
            count == count_fixable(ls, k as int),
            count <= k,
        decreases lines@.len() - k,
    {
        let nums = match parse_line(&lines[k]) {
            Some(v) => v,
            None => {
                proof {
                    assert(!line_parses(ls[k as int]));
                }
                return None;
            },
        };
        if nums.len() < 2 {
            proof {
                assert(line_nums(ls[k as int]).len() < 2);
            }
            return None;
        }
        let s = is_safe(nums.as_slice());
        if s {
            count += 1;
        } else {
            if nums.len() < 3 {
                proof {
                    assert(!safe(line_nums(ls[k as int])) && line_nums(ls[k as int]).len() < 3);
                }
                return None;
            }
            if can_be_made_safe(nums.as_slice()) {
                count += 1;
            }
        }
        k += 1;
    }
    if count > u32::MAX as usize {
        return None;
    }
    Some(count as u32)
}

} // verus!
