//! Pairs of location identifiers, one per line, separated by three spaces.
//! Part one sums the gaps between the two sorted columns; part two sums each
//! left value weighted by how often it appears in the right column.

use vstd::prelude::*;

verus! {

use crate::parse::{
    ascii_bytes, bytes_of, digits_val, find_sep, is_digits, lines_spec, lines_of, parse_u32,
};
use crate::sorting::{sort_u32, sorted};

/// Index of the first run of three spaces in `s`, or `-1` if there is none.
pub open spec fn find_triple_space(s: Seq<u8>) -> int
    decreases s.len(),
{
    if s.len() < 3 {
        -1
    } else if s[0] == 32 && s[1] == 32 && s[2] == 32 {
        0
    } else {
        let r = find_triple_space(s.drop_first());
        if r < 0 {
            -1
        } else {
            1 + r
        }
    }
}

/// The two sides of a line split at its first three-space separator.
pub open spec fn line_pair(l: Seq<u8>) -> Option<(Seq<u8>, Seq<u8>)> {
    let i = find_triple_space(l);
    if i < 0 {
        None
    } else {
        Some((l.take(i), l.skip(i + 3)))
    }
}

/// The lines that have a separator, split into their two sides.
pub open spec fn paired_lines(ls: Seq<Seq<u8>>) -> Seq<(Seq<u8>, Seq<u8>)>
    decreases ls.len(),
{
    if ls.len() == 0 {
        Seq::empty()
    } else {
        let rest = paired_lines(ls.drop_last());
        match line_pair(ls.last()) {
            Some(p) => rest.push(p),
            None => rest,
        }
    }
}

/// Both sides of every pair are decimal numbers that fit in a `u32`.
pub open spec fn pairs_ok(ps: Seq<(Seq<u8>, Seq<u8>)>) -> bool {
    forall|i: int|
        0 <= i < ps.len() ==> {
            &&& is_digits((#[trigger] ps[i]).0)
            &&& is_digits(ps[i].1)
            &&& digits_val(ps[i].0) <= u32::MAX
            &&& digits_val(ps[i].1) <= u32::MAX
        }
}

pub open spec fn left_vals(ps: Seq<(Seq<u8>, Seq<u8>)>) -> Seq<u32> {
    ps.map_values(|p: (Seq<u8>, Seq<u8>)| digits_val(p.0) as u32)
}

pub open spec fn right_vals(ps: Seq<(Seq<u8>, Seq<u8>)>) -> Seq<u32> {
    ps.map_values(|p: (Seq<u8>, Seq<u8>)| digits_val(p.1) as u32)
}

/// Sum of the absolute differences of the columns, position by position.
pub open spec fn sum_absdiff(a: Seq<u32>, b: Seq<u32>) -> int
    decreases a.len(),
{
    if a.len() == 0 || b.len() == 0 {
        0
    } else {
        sum_absdiff(a.drop_last(), b.drop_last()) + vstd::math::abs(a.last() - b.last())
    }
}

/// How often `x` occurs in `s`.
pub open spec fn count_val(s: Seq<u32>, x: u32) -> int
    decreases s.len(),
{
    if s.len() == 0 {
        0
    } else {
        count_val(s.drop_last(), x) + if s.last() == x {
            1int
        } else {
            0int
        }
    }
}

/// Sum of each left value times its number of occurrences on the right.
pub open spec fn similarity(a: Seq<u32>, b: Seq<u32>) -> int
    decreases a.len(),
{
    if a.len() == 0 {
        0
    } else {
        similarity(a.drop_last(), b) + a.last() * count_val(b, a.last())
    }
}

pub open spec fn le_u32() -> spec_fn(u32, u32) -> bool {
    |a: u32, b: u32| a <= b
}

/// What part one answers: the sorted columns' total gap, if every pair
/// parses and the total fits in a `u32`.
pub open spec fn part_one_spec(s: Seq<u8>) -> Option<u32> {
    let ps = paired_lines(lines_spec(s));
    if !pairs_ok(ps) {
        None
    } else {
        let total = sum_absdiff(
            left_vals(ps).sort_by(le_u32()),
            right_vals(ps).sort_by(le_u32()),
        );
        if total <= u32::MAX {
            Some(total as u32)
        } else {
            None
        }
    }
}

/// What part two answers: the similarity score, if every pair parses and the
/// score fits in a `u32`.
pub open spec fn part_two_spec(s: Seq<u8>) -> Option<u32> {
    let ps = paired_lines(lines_spec(s));
    if !pairs_ok(ps) {
        None
    } else {
        let total = similarity(left_vals(ps), right_vals(ps));
        if total <= u32::MAX {
            Some(total as u32)
        } else {
            None
        }
    }
}

/// Find the first run of three spaces in `l`, reporting `l.len()` if absent.
fn find_triple(l: &Vec<u8>) -> (r: usize)
    ensures
        r <= l@.len(),
        r < l@.len() ==> r == find_triple_space(l@) && r + 3 <= l@.len(),
        r == l@.len() ==> find_triple_space(l@) < 0,
{
    proof {
        assert(l@.skip(0) =~= l@);
    }
    let n = l.len();
    if n < 3 {
        proof {
            lemma_find_triple_none(l@, 0);
        }
        return n;
    }
    let mut i: usize = 0;
    while i + 2 < n
        invariant
            0 <= i,
            i + 2 <= n,
            n == l@.len(),
            forall|j: int|
                0 <= j < i ==> !(#[trigger] l@[j] == 32 && l@[j + 1] == 32 && l@[j + 2]
                    == 32),
        decreases n - i,
    {
        if l[i] == 32 && l[i + 1] == 32 && l[i + 2] == 32 {
            proof {
                assert(l@.skip(0) =~= l@);
                lemma_find_triple_at(l@, 0, i as int);
            }
            return i;
        }
        i += 1;
    }
    proof {
        assert(l@.skip(0) =~= l@);
        lemma_find_triple_none(l@, 0);
    }
    n
}

/// On a sequence whose prefix has no triple space and whose position `at`
/// starts one, `find_triple_space` returns `at`.
proof fn lemma_find_triple_at(l: Seq<u8>, from: int, at: int)
    requires
        0 <= from <= at,
        at + 2 < l.len(),
        forall|j: int|
            from <= j < at ==> !(#[trigger] l[j] == 32 && l[j + 1] == 32 && l[j + 2] == 32),
        l[at] == 32 && l[at + 1] == 32 && l[at + 2] == 32,
    ensures
        find_triple_space(l.skip(from)) == at - from,
    decreases at - from,
{
    let suf = l.skip(from);
    assert(suf.len() == l.len() - from);
    if at == from {
        assert(suf[0] == l[from] && suf[1] == l[from + 1] && suf[2] == l[from + 2]);
    } else {
        assert(suf[0] == l[from] && suf[1] == l[from + 1] && suf[2] == l[from + 2]);
        lemma_find_triple_at(l, from + 1, at);
        assert(suf.drop_first() =~= l.skip(from + 1));
    }
}

/// Without any triple space from `from` on, `find_triple_space` is negative.
proof fn lemma_find_triple_none(l: Seq<u8>, from: int)
    requires
        0 <= from <= l.len(),
        forall|j: int|
            from <= j && j + 2 < l.len() ==> !(#[trigger] l[j] == 32 && l[j + 1] == 32 && l[j
                + 2] == 32),
    ensures
        find_triple_space(l.skip(from)) < 0,
    decreases l.len() - from,
{
    let suf = l.skip(from);
    if suf.len() >= 3 {
        assert(suf[0] == l[from] && suf[1] == l[from + 1] && suf[2] == l[from + 2]);
        lemma_find_triple_none(l, from + 1);
        assert(suf.drop_first() =~= l.skip(from + 1));
    }
}

/// Parse the two columns; `None` when a line with a separator has a side
/// that is not a `u32` number.
fn parse_columns(input_bytes: &Vec<u8>) -> (r: Option<(Vec<u32>, Vec<u32>)>)
    ensures
        match r {
            Some(cols) => {
                &&& pairs_ok(paired_lines(lines_spec(input_bytes@)))
                &&& cols.0@ == left_vals(paired_lines(lines_spec(input_bytes@)))
                &&& cols.1@ == right_vals(paired_lines(lines_spec(input_bytes@)))
            },
            None => !pairs_ok(paired_lines(lines_spec(input_bytes@))),
        },
{
    let lines = lines_of(input_bytes);
    let ghost ls = lines_spec(input_bytes@);
    let mut left: Vec<u32> = Vec::new();
    let mut right: Vec<u32> = Vec::new();
    let mut k: usize = 0;
    proof {
        assert(ls.take(0) =~= Seq::<Seq<u8>>::empty());
    }
    while k < lines.len()
        invariant
            0 <= k <= lines@.len(),
            ls == lines_spec(input_bytes@),
            lines@.len() == ls.len(),
            forall|t: int| 0 <= t < ls.len() ==> lines@[t]@ == ls[t],
            pairs_ok(paired_lines(ls.take(k as int))),
            left@ == left_vals(paired_lines(ls.take(k as int))),
            right@ == right_vals(paired_lines(ls.take(k as int))),
        decreases lines@.len() - k,
    {
        let l = &lines[k];
        let ghost prev = paired_lines(ls.take(k as int));
        proof {
            assert(ls.take(k + 1).drop_last() =~= ls.take(k as int));
            assert(ls.take(k + 1).last() == ls[k as int]);
        }
        let sep = find_triple(l);
        if sep < l.len() {
            let a = crate::parse::sub_vec(l.as_slice(), 0, sep);
            let b = crate::parse::sub_vec(l.as_slice(), sep + 3, l.len());
            proof {
                assert(a@ =~= l@.take(sep as int));
                assert(b@ =~= l@.skip(sep + 3));
            }
            let av = parse_u32(a.as_slice());
            let bv = parse_u32(b.as_slice());
            match (av, bv) {
                (Some(x), Some(y)) => {
                    left.push(x);
                    right.push(y);
                    proof {
                        let cur = paired_lines(ls.take(k + 1));
                        assert(cur == prev.push((l@.take(sep as int), l@.skip(sep + 3))));
                        assert(left@ =~= left_vals(cur));
                        assert(right@ =~= right_vals(cur));
                    }
                },
                _ => {
                    proof {
                        let cur = paired_lines(ls.take(k + 1));
                        assert(cur == prev.push((l@.take(sep as int), l@.skip(sep + 3))));
                        let bad = cur.len() - 1;
                        assert(cur[bad] == (l@.take(sep as int), l@.skip(sep + 3)));
                        assert(cur[bad].0 == a@ && cur[bad].1 == b@);
                        assert(!pairs_ok(cur));
                        lemma_pairs_ok_prefix_bad(ls, k + 1);
                    }
                    return None;
                },
            }
        } else {
            proof {
                assert(l@ == ls[k as int]);
                assert(line_pair(ls[k as int]) is None);
                assert(paired_lines(ls.take(k + 1)) == prev);
            }
        }
        k += 1;
    }
    proof {
        assert(ls.take(ls.len() as int) =~= ls);
    }
    Some((left, right))
}

/// If a prefix of the lines already has a bad pair, the whole input does.
proof fn lemma_pairs_ok_prefix_bad(ls: Seq<Seq<u8>>, k: int)
    requires
        0 <= k <= ls.len(),
        !pairs_ok(paired_lines(ls.take(k))),
    ensures
        !pairs_ok(paired_lines(ls)),
    decreases ls.len() - k,
{
    if k < ls.len() {
        assert(ls.take(k + 1).drop_last() =~= ls.take(k));
        assert(ls.take(k + 1).last() == ls[k]);
        let prev = paired_lines(ls.take(k));
        let cur = paired_lines(ls.take(k + 1));
        let bad = choose|i: int|
            0 <= i < prev.len() && !{
                &&& is_digits(prev[i].0)
                &&& is_digits(prev[i].1)
                &&& digits_val(prev[i].0) <= u32::MAX
                &&& digits_val(prev[i].1) <= u32::MAX
            };
        assert(cur[bad] == prev[bad]);
        assert(!pairs_ok(cur));
        lemma_pairs_ok_prefix_bad(ls, k + 1);
    } else {
        assert(ls.take(k) =~= ls);
    }
}

/// Total distance between the sorted columns.
pub fn part_one(input: &str) -> (r: Option<u32>)
    ensures
        r == if input.is_ascii() {
            part_one_spec(ascii_bytes(input@))
        } else {
            None::<u32>
        },
{
    if !input.is_ascii() {
        return None;
    }
    let bytes = bytes_of(input);
    let ghost ps = paired_lines(lines_spec(bytes@));
    let cols = match parse_columns(&bytes) {
        Some(c) => c,
        None => {
            return None;
        },
    };
    let sl = sort_u32(&cols.0);
    let sr = sort_u32(&cols.1);
    proof {
        let leq = le_u32();
        assert(vstd::relations::total_ordering(leq));
        left_vals(ps).lemma_sort_by_ensures(leq);
        right_vals(ps).lemma_sort_by_ensures(leq);
        assert(vstd::relations::sorted_by(sl@, leq));
        assert(vstd::relations::sorted_by(sr@, leq));
        vstd::seq_lib::lemma_sorted_unique(sl@, left_vals(ps).sort_by(leq), leq);
        vstd::seq_lib::lemma_sorted_unique(sr@, right_vals(ps).sort_by(leq), leq);
    }
    let mut acc: u32 = 0;
    let mut i: usize = 0;
    let n = sl.len();
    proof {
        assert(sl@.take(0) =~= Seq::<u32>::empty());
        assert(sr@.take(0) =~= Seq::<u32>::empty());
    }
    while i < n
        invariant
            0 <= i <= n,
            n == sl@.len(),
            sl@.len() == sr@.len(),
            acc == sum_absdiff(sl@.take(i as int), sr@.take(i as int)),
            input.is_ascii(),
            ps == paired_lines(lines_spec(ascii_bytes(input@))),
            pairs_ok(ps),
            sl@ == left_vals(ps).sort_by(le_u32()),
            sr@ == right_vals(ps).sort_by(le_u32()),
        decreases n - i,
    {
        proof {
            assert(sl@.take(i + 1).drop_last() =~= sl@.take(i as int));
            assert(sr@.take(i + 1).drop_last() =~= sr@.take(i as int));
            assert(sl@.take(i + 1).last() == sl@[i as int]);
            assert(sr@.take(i + 1).last() == sr@[i as int]);
        }
        let a = sl[i];
        let b = sr[i];
        let d: u32 = if a >= b {
            a - b
        } else {
            b - a
        };
        if acc > u32::MAX - d {
            proof {
                lemma_sum_absdiff_prefix(sl@, sr@, i + 1);
            }
            return None;
        }
        acc = acc + d;
        i += 1;
    }
    proof {
        assert(sl@.take(n as int) =~= sl@);
        assert(sr@.take(n as int) =~= sr@);
    }
    Some(acc)
}

/// The running total never exceeds the whole total.
proof fn lemma_sum_absdiff_prefix(a: Seq<u32>, b: Seq<u32>, i: int)
    requires
        a.len() == b.len(),
        0 <= i <= a.len(),
    ensures
        sum_absdiff(a.take(i), b.take(i)) <= sum_absdiff(a, b),
    decreases a.len() - i,
{
    if i < a.len() {
        lemma_sum_absdiff_prefix(a, b, i + 1);
        assert(a.take(i + 1).drop_last() =~= a.take(i));
        assert(b.take(i + 1).drop_last() =~= b.take(i));
    } else {
        assert(a.take(i) =~= a);
        assert(b.take(i) =~= b);
    }
}

/// Sum of left values weighted by their occurrences on the right.
pub fn part_two(input: &str) -> (r: Option<u32>)
    ensures
        r == if input.is_ascii() {
            part_two_spec(ascii_bytes(input@))
        } else {
            None::<u32>
        },
{
    if !input.is_ascii() {
        return None;
    }
    let bytes = bytes_of(input);
    let ghost ps = paired_lines(lines_spec(bytes@));
    let cols = match parse_columns(&bytes) {
        Some(c) => c,
        None => {
            return None;
        },
    };
    let left = cols.0;
    let right = cols.1;
    let mut acc: u32 = 0;
    let mut i: usize = 0;
    proof {
        assert(left@.take(0) =~= Seq::<u32>::empty());
    }
    while i < left.len()
        invariant
            0 <= i <= left@.len(),
            acc == similarity(left@.take(i as int), right@),
            input.is_ascii(),
            ps == paired_lines(lines_spec(ascii_bytes(input@))),
            pairs_ok(ps),
            left@ == left_vals(ps),
            right@ == right_vals(ps),
        decreases left@.len() - i,
    {
        proof {
            assert(left@.take(i + 1).drop_last() =~= left@.take(i as int));
        }
        let x = left[i];
        let mut cnt: usize = 0;
        let mut j: usize = 0;
        proof {
            assert(right@.take(0) =~= Seq::<u32>::empty());
        }
        while j < right.len()
            invariant
                0 <= j <= right@.len(),
                cnt == count_val(right@.take(j as int), x),
                cnt <= j,
            decreases right@.len() - j,
        {
            proof {
                assert(right@.take(j + 1).drop_last() =~= right@.take(j as int));
                assert(right@.take(j + 1).last() == right@[j as int]);
            }
            if right[j] == x {
                cnt = cnt + 1;
            }
            j += 1;
        }
        proof {
            assert(right@.take(right@.len() as int) =~= right@);
        }
        proof {
            assert((x as int) * (cnt as int) < 0x1_0000_0000_0000_0000_0000_0000int)
                by (nonlinear_arith)
                requires
                    0 <= x < 0x1_0000_0000,
                    0 <= cnt < 0x1_0000_0000_0000_0000,
            ;
        }
        let prod: u128 = (x as u128) * (cnt as u128);
        if prod > (u32::MAX - acc) as u128 {
            proof {
                lemma_similarity_prefix(left@, right@, i + 1);
            }
            return None;
        }
        acc = acc + (prod as u32);
        i += 1;
    }
    proof {
        assert(left@.take(left@.len() as int) =~= left@);
    }
    Some(acc)
}

/// The running similarity never exceeds the whole score.
proof fn lemma_similarity_prefix(a: Seq<u32>, b: Seq<u32>, i: int)
    requires
        0 <= i <= a.len(),
    ensures
        similarity(a.take(i), b) <= similarity(a, b),
    decreases a.len() - i,
{
    if i < a.len() {
        lemma_similarity_prefix(a, b, i + 1);
        assert(a.take(i + 1).drop_last() =~= a.take(i));
        lemma_count_val_nonneg(b, a[i]);
        assert(a.take(i + 1).last() == a[i]);
    } else {
        assert(a.take(i) =~= a);
    }
}

proof fn lemma_count_val_nonneg(s: Seq<u32>, x: u32)
    ensures
        count_val(s, x) >= 0,
    decreases s.len(),
{
    if s.len() > 0 {
        lemma_count_val_nonneg(s.drop_last(), x);
    }
}

} // verus!
