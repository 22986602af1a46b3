//! Towel patterns and designs: the first input line lists the available
//! patterns, the rest are designs.  Part one counts the designs that can be
//! written as a concatenation of patterns; part two counts, over all
//! designs, every distinct way of doing so.

use vstd::prelude::*;

verus! {

use crate::parse::{ascii_bytes, bytes_of, lines_spec, lines_of, split_pair, split_pair_spec};

/// `p` starts `d`.
pub open spec fn is_prefix(p: Seq<u8>, d: Seq<u8>) -> bool {
    p.len() <= d.len() && p == d.take(p.len() as int)
}

/// The design `d` can be written as a concatenation of patterns.
pub open spec fn displayable(ts: Seq<Seq<u8>>, d: Seq<u8>) -> bool
    decreases d.len(), ts.len() + 1,
{
    if d.len() == 0 {
        true
    } else {
        disp_any(ts, d, ts.len() as int)
    }
}

/// Some pattern among the first `i` starts `d` and leaves a writable rest.
pub open spec fn disp_any(ts: Seq<Seq<u8>>, d: Seq<u8>, i: int) -> bool
    decreases d.len(), i,
{
    if i <= 0 || d.len() == 0 {
        false
    } else {
        disp_any(ts, d, i - 1) || (ts[i - 1].len() >= 1 && is_prefix(ts[i - 1], d)
            && displayable(ts, d.skip(ts[i - 1].len() as int)))
    }
}

/// How many ways `d` can be written as a concatenation of patterns.
pub open spec fn ways(ts: Seq<Seq<u8>>, d: Seq<u8>) -> int
    decreases d.len(), ts.len() + 1,
{
    if d.len() == 0 {
        1
    } else {
        ways_sum(ts, d, ts.len() as int)
    }
}

/// Ways that start with one of the first `i` patterns.
pub open spec fn ways_sum(ts: Seq<Seq<u8>>, d: Seq<u8>, i: int) -> int
    decreases d.len(), i,
{
    if i <= 0 || d.len() == 0 {
        0
    } else {
        ways_sum(ts, d, i - 1) + if ts[i - 1].len() >= 1 && is_prefix(ts[i - 1], d) {
            ways(ts, d.skip(ts[i - 1].len() as int))
        } else {
            0int
        }
    }
}

/// Whether pattern `t` starts the suffix of `d` at `j`.
fn prefix_at(t: &Vec<u8>, d: &[u8], j: usize) -> (r: bool)
    requires
        j <= d@.len(),
    ensures
        r == is_prefix(t@, d@.skip(j as int)),
{
    let tl = t.len();
    if tl > d.len() - j {
        return false;
    }
    let mut k: usize = 0;
    while k < tl
        invariant
            0 <= k <= tl,
            tl == t@.len(),
            j + tl <= d@.len(),
            d@.len() <= usize::MAX,
            forall|q: int| 0 <= q < k ==> t@[q] == d@[j + q],
        decreases tl - k,
    {
        if t[k] != d[j + k] {
            proof {
                assert(d@.skip(j as int)[k as int] == d@[j + k]);
                assert(t@ != d@.skip(j as int).take(tl as int));
            }
            return false;
        }
        k += 1;
    }
    proof {
        assert(t@ =~= d@.skip(j as int).take(tl as int));
    }
    true
}

/// All patterns are non-empty.
pub open spec fn towels_ok(ts: Seq<Seq<u8>>) -> bool {
    forall|i: int| 0 <= i < ts.len() ==> (#[trigger] ts[i]).len() >= 1
}

/// The answer the scanner gives a design: an empty one counts as not
/// writable (it takes one pattern or more), any other as `displayable`.
pub open spec fn display_answer(ts: Seq<Seq<u8>>, d: Seq<u8>) -> bool {
    d.len() >= 1 && displayable(ts, d)
}

/// Whether the design can be written from one or more patterns.
pub fn can_display(towels: &Vec<Vec<u8>>, design: &[u8]) -> (r: bool)
    requires
        towels_ok(towels.deep_view()),
    ensures
        r == display_answer(towels.deep_view(), design@),
{
    let ghost ts = towels.deep_view();
    let n = design.len();
    if n == 0 {
        return false;
    }
    let mut disp: Vec<bool> = Vec::new();
    let mut z: usize = 0;
    while z < n
        invariant
            z <= n,
            n == design@.len(),
            disp@.len() == z,
        decreases n - z,
    {
        disp.push(false);
        z += 1;
    }
    proof {
        assert(design@.skip(n as int) =~= Seq::<u8>::empty());
    }
    let mut j: usize = n;
    while j > 0
        invariant
            0 <= j <= n,
            n == design@.len(),
            n <= usize::MAX,
            disp@.len() == n,
            ts == towels.deep_view(),
            towels_ok(ts),
            forall|q: int| j <= q < n ==> disp@[q] == displayable(ts, design@.skip(q)),
        decreases j,
    {
        let jj = j - 1;
        let mut found = false;
        let mut i: usize = 0;
        while i < towels.len()
            invariant
                0 <= i <= towels@.len(),
                0 <= jj < n,
                n == design@.len(),
                n <= usize::MAX,
                disp@.len() == n,
                ts == towels.deep_view(),
                ts.len() == towels@.len(),
                towels_ok(ts),
                forall|q: int| jj < q < n ==> disp@[q] == displayable(ts, design@.skip(q)),
                found == disp_any(ts, design@.skip(jj as int), i as int),
            decreases towels@.len() - i,
        {
            let t = &towels[i];
            proof {
                assert(ts[i as int] == towels@[i as int]@);
            }
            if !found {
                if prefix_at(t, design, jj) {
                    proof {
                        assert(design@.skip(jj as int).skip(t@.len() as int) =~= design@.skip(
                            jj + t@.len(),
                        ));
                        assert(design@.skip(n as int) =~= Seq::<u8>::empty());
                    }
                    let idx = jj + t.len();
                    if idx == n {
                        found = true;
                    } else if disp[idx] {
                        found = true;
                    }
                }
            }
            proof {
                let dsfx = design@.skip(jj as int);
                let tt = ts[i as int];
                assert(disp_any(ts, dsfx, i + 1) == (disp_any(ts, dsfx, i as int) || (tt.len()
                    >= 1 && is_prefix(tt, dsfx) && displayable(ts, dsfx.skip(tt.len() as int)))));
                if !disp_any(ts, dsfx, i as int) && is_prefix(tt, dsfx) {
                    assert(dsfx.skip(tt.len() as int) =~= design@.skip(jj + tt.len()));
                    if jj + tt.len() == n as int {
                        assert(design@.skip(n as int) =~= Seq::<u8>::empty());
                        assert(displayable(ts, dsfx.skip(tt.len() as int)));
                    }
                }
            }
            i += 1;
        }
        disp.set(jj, found);
        j = jj;
    }
    proof {
        assert(design@.skip(0) =~= design@);
    }
    let r = disp[0];
    r
}

/// How many one-or-more-pattern writings a design has: zero for the
/// empty design.
pub open spec fn ways_answer(ts: Seq<Seq<u8>>, d: Seq<u8>) -> int {
    if d.len() == 0 {
        0
    } else {
        ways(ts, d)
    }
}

/// Count the ways the design can be written; `None` when a count leaves
/// `u64`.
pub fn ways_to_display(towels: &Vec<Vec<u8>>, design: &[u8]) -> (r: Option<u64>)
    requires
        towels_ok(towels.deep_view()),
    ensures
        match r {
            Some(c) => c == ways_answer(towels.deep_view(), design@) && forall|q: int|
                0 <= q <= design@.len() ==> ways(towels.deep_view(), #[trigger] design@.skip(q))
                    <= u64::MAX,
            None => exists|q: int|
                0 <= q <= design@.len() && ways(towels.deep_view(), #[trigger] design@.skip(q))
                    > u64::MAX,
        },
{
    let ghost ts = towels.deep_view();
    let n = design.len();
    if n == 0 {
        proof {
            assert(design@.skip(0) =~= design@);
        }
        return Some(0);
    }
    let mut w: Vec<u64> = Vec::new();
    let mut z: usize = 0;
    while z < n
        invariant
            z <= n,
            n == design@.len(),
            w@.len() == z,
        decreases n - z,
    {
        w.push(0);
        z += 1;
    }
    proof {
        assert(design@.skip(n as int) =~= Seq::<u8>::empty());
    }
    let mut j: usize = n;
    while j > 0
        invariant
            0 <= j <= n,
            n == design@.len(),
            n <= usize::MAX,
            w@.len() == n,
            ts == towels.deep_view(),
            towels_ok(ts),
            forall|q: int| j <= q < n ==> w@[q] == ways(ts, design@.skip(q)),
        decreases j,
    {
        let jj = j - 1;
        let mut acc: u64 = 0;
        let mut i: usize = 0;
        while i < towels.len()
            invariant
                0 <= i <= towels@.len(),
                0 <= jj < n,
                n == design@.len(),
                n <= usize::MAX,
                w@.len() == n,
                ts == towels.deep_view(),
                ts.len() == towels@.len(),
                towels_ok(ts),
                forall|q: int| jj < q < n ==> w@[q] == ways(ts, design@.skip(q)),
                acc == ways_sum(ts, design@.skip(jj as int), i as int),
            decreases towels@.len() - i,
        {
            let t = &towels[i];
            proof {
                assert(ts[i as int] == towels@[i as int]@);
            }
            if prefix_at(t, design, jj) {
                proof {
                    assert(design@.skip(jj as int).skip(t@.len() as int) =~= design@.skip(
                        jj + t@.len(),
                    ));
                    assert(design@.skip(n as int) =~= Seq::<u8>::empty());
                }
                let idx = jj + t.len();
                let add: u64 = if idx == n {
                    1
                } else {
                    w[idx]
                };
                proof {
                    let dsfx = design@.skip(jj as int);
                    let tt = ts[i as int];
                    assert(dsfx.skip(tt.len() as int) =~= design@.skip(jj + tt.len()));
                    if jj + tt.len() == n as int {
                        assert(design@.skip(n as int) =~= Seq::<u8>::empty());
                        assert(ways(ts, dsfx.skip(tt.len() as int)) == 1);
                    }
                    assert(ways_sum(ts, dsfx, i + 1) == ways_sum(ts, dsfx, i as int) + ways(
                        ts,
                        dsfx.skip(tt.len() as int),
                    ));
                }
                match acc.checked_add(add) {
                    Some(a) => {
                        acc = a;
                    },
                    None => {
                        proof {
                            lemma_ways_sum_le(ts, design@.skip(jj as int), i + 1);
                            lemma_ways_nonneg(ts, design@.skip(jj as int), ts.len() as int);
                            assert(ways(ts, design@.skip(jj as int)) > u64::MAX);
                        }
                        return None;
                    },
                }
            } else {
                proof {
                    let dsfx = design@.skip(jj as int);
                    assert(ways_sum(ts, dsfx, i + 1) == ways_sum(ts, dsfx, i as int));
                }
            }
            i += 1;
        }
        w.set(jj, acc);
        j = jj;
    }
    proof {
        assert(design@.skip(0) =~= design@);
        assert forall|q: int| 0 <= q <= design@.len() implies ways(
            ts,
            #[trigger] design@.skip(q),
        ) <= u64::MAX by {
            if q == n as int {
                assert(design@.skip(n as int) =~= Seq::<u8>::empty());
            } else {
                assert(w@[q] == ways(ts, design@.skip(q)));
            }
        }
    }
    let r = w[0];
    Some(r)
}

/// Partial pattern sums never exceed the full count.
proof fn lemma_ways_sum_le(ts: Seq<Seq<u8>>, d: Seq<u8>, i: int)
    requires
        0 <= i <= ts.len(),
        d.len() >= 1,
    ensures
        ways_sum(ts, d, i) <= ways(ts, d),
    decreases ts.len() - i,
{
    if i < ts.len() {
        lemma_ways_sum_le(ts, d, i + 1);
        if ts[i].len() >= 1 && is_prefix(ts[i], d) {
            lemma_ways_nonneg2(ts, d.skip(ts[i].len() as int));
        }
    }
}

proof fn lemma_ways_nonneg(ts: Seq<Seq<u8>>, d: Seq<u8>, i: int)
    ensures
        ways_sum(ts, d, i) >= 0,
    decreases d.len(), i,
{
    if i > 0 && d.len() > 0 {
        lemma_ways_nonneg(ts, d, i - 1);
        if ts[i - 1].len() >= 1 && is_prefix(ts[i - 1], d) {
            lemma_ways_nonneg2(ts, d.skip(ts[i - 1].len() as int));
        }
    }
}

proof fn lemma_ways_nonneg2(ts: Seq<Seq<u8>>, d: Seq<u8>)
    ensures
        ways(ts, d) >= 0,
    decreases d.len(), ts.len() + 1,
{
    if d.len() > 0 {
        lemma_ways_nonneg(ts, d, ts.len() as int);
    }
}

/// The patterns of the first line, cut at every comma-space.
pub open spec fn towels_spec(s: Seq<u8>) -> Seq<Seq<u8>> {
    split_pair_spec(lines_spec(s)[0], 44u8, 32u8)
}

/// The designs: every line from the third on.
pub open spec fn designs_spec(s: Seq<u8>) -> Seq<Seq<u8>> {
    if lines_spec(s).len() >= 2 {
        lines_spec(s).skip(2)
    } else {
        Seq::empty()
    }
}

/// The input shape both parts need: a pattern line, and no empty pattern.
pub open spec fn day_ok(s: Seq<u8>) -> bool {
    lines_spec(s).len() >= 1 && towels_ok(towels_spec(s))
}

/// Designs among the first `k` that can be written (empty lines cannot).
pub open spec fn count_displayable(ts: Seq<Seq<u8>>, ds: Seq<Seq<u8>>, k: int) -> int
    decreases k,
{
    if k <= 0 {
        0
    } else {
        count_displayable(ts, ds, k - 1) + if ds[k - 1].len() >= 1 && displayable(
            ts,
            ds[k - 1],
        ) {
            1int
        } else {
            0int
        }
    }
}

/// Total ways over the first `k` designs (empty lines count zero).
pub open spec fn sum_ways(ts: Seq<Seq<u8>>, ds: Seq<Seq<u8>>, k: int) -> int
    decreases k,
{
    if k <= 0 {
        0
    } else {
        sum_ways(ts, ds, k - 1) + if ds[k - 1].len() >= 1 {
            ways(ts, ds[k - 1])
        } else {
            0int
        }
    }
}

pub open spec fn part_one_spec(s: Seq<u8>) -> Option<u64> {
    if !day_ok(s) {
        None
    } else if count_displayable(towels_spec(s), designs_spec(s), designs_spec(s).len() as int)
        > u64::MAX {
        None
    } else {
        Some(
            count_displayable(towels_spec(s), designs_spec(s), designs_spec(s).len() as int)
                as u64,
        )
    }
}

pub open spec fn part_two_spec(s: Seq<u8>) -> Option<u64> {
    if !day_ok(s) {
        None
    } else if exists|i: int, q: int|
        0 <= i < designs_spec(s).len() && 0 <= q <= (#[trigger] designs_spec(s)[i]).len()
            && designs_spec(s)[i].len() >= 1 && ways(
            towels_spec(s),
            #[trigger] designs_spec(s)[i].skip(q),
        ) > u64::MAX {
        None
    } else if sum_ways(towels_spec(s), designs_spec(s), designs_spec(s).len() as int)
        > u64::MAX {
        None
    } else {
        Some(sum_ways(towels_spec(s), designs_spec(s), designs_spec(s).len() as int) as u64)
    }
}

/// Split the input into patterns and designs.
pub fn parse(input: &str) -> (r: Option<(Vec<Vec<u8>>, Vec<Vec<u8>>)>)
    ensures
        match r {
            Some(p) => {
                &&& input.is_ascii()
                &&& day_ok(ascii_bytes(input@))
                &&& p.0.deep_view().len() == towels_spec(ascii_bytes(input@)).len()
                &&& forall|i: int|
                    0 <= i < p.0@.len() ==> p.0@[i]@ == towels_spec(ascii_bytes(input@))[i]
                &&& p.1@.len() == designs_spec(ascii_bytes(input@)).len()
                &&& forall|i: int|
                    0 <= i < p.1@.len() ==> p.1@[i]@ == designs_spec(ascii_bytes(input@))[i]
            },
            None => !input.is_ascii() || !day_ok(ascii_bytes(input@)),
        },
{
    if !input.is_ascii() {
        return None;
    }
    let bytes = bytes_of(input);
    let lines = lines_of(&bytes);
    if lines.len() == 0 {
        return None;
    }
    let towels = split_pair(lines[0].as_slice(), 44u8, 32u8);
    let ghost ts = towels_spec(bytes@);
    let mut i: usize = 0;
    while i < towels.len()
        invariant
            ts == towels_spec(bytes@),
            bytes@ == ascii_bytes(input@),
            input.is_ascii(),
            lines_spec(bytes@).len() >= 1,
            0 <= i <= towels@.len(),
            towels@.len() == ts.len(),
            forall|t: int| 0 <= t < ts.len() ==> towels@[t]@ == ts[t],
            forall|t: int| 0 <= t < i ==> (#[trigger] ts[t]).len() >= 1,
        decreases towels@.len() - i,
    {
        if towels[i].len() == 0 {
            proof {
                assert(ts[i as int].len() == 0);
                assert(!towels_ok(towels_spec(bytes@)));
            }
            return None;
        }
        i += 1;
    }
    let mut designs: Vec<Vec<u8>> = Vec::new();
    let mut k: usize = 2;
    if lines.len() >= 2 {
        while k < lines.len()
            invariant
                2 <= k <= lines@.len() || (k == 2 && lines@.len() <= 2),
                lines@.len() == lines_spec(bytes@).len(),
                forall|t: int| 0 <= t < lines@.len() ==> lines@[t]@ == lines_spec(bytes@)[t],
                designs@.len() == k - 2,
                forall|t: int|
                    0 <= t < k - 2 ==> designs@[t]@ == lines_spec(bytes@)[t + 2],
            decreases lines@.len() - k,
        {
            let d = crate::parse::sub_vec(lines[k].as_slice(), 0, lines[k].len());
            proof {
                let lk = lines[k as int]@;
                assert(lk.subrange(0, lk.len() as int) =~= lk);
            }
            designs.push(d);
            k += 1;
        }
    }
    proof {
        assert(towels.deep_view().len() == towels@.len());
        assert forall|t: int| 0 <= t < towels@.len() implies (
        #[trigger] towels.deep_view()[t]).len() >= 1 by {
            assert(towels@[t]@ == ts[t]);
            assert(ts[t].len() >= 1);
            assert(towels.deep_view()[t] =~= towels@[t]@);
        }
        assert forall|t: int| 0 <= t < designs@.len() implies designs@[t]@ == designs_spec(
            bytes@,
        )[t] by {
            assert(designs_spec(bytes@)[t] == lines_spec(bytes@)[t + 2]);
        }
    }
    Some((towels, designs))
}

/// The number of writable designs.
pub fn part_one(input: &str) -> (r: Option<u64>)
    ensures
        r == if input.is_ascii() {
            part_one_spec(ascii_bytes(input@))
        } else {
            None::<u64>
        },
{
    let (towels, designs) = match parse(input) {
        Some(p) => p,
        None => {
            return None;
        },
    };
    let ghost ts = towels_spec(ascii_bytes(input@));
    let ghost ds = designs_spec(ascii_bytes(input@));
    proof {
        assert(towels.deep_view() =~~= ts);
    }
    let mut count: u64 = 0;
    let mut k: usize = 0;
    while k < designs.len()
        invariant
            0 <= k <= designs@.len(),
            input.is_ascii(),
            day_ok(ascii_bytes(input@)),
            ts == towels_spec(ascii_bytes(input@)),
            ds == designs_spec(ascii_bytes(input@)),
            towels.deep_view() == ts,
            towels_ok(ts),
            designs@.len() == ds.len(),
            forall|t: int| 0 <= t < ds.len() ==> designs@[t]@ == ds[t],
            count == count_displayable(ts, ds, k as int),
            count <= k,
        decreases designs@.len() - k,
    {
        proof {
            lemma_count_nonneg(ts, ds, k as int);
        }
        let d = &designs[k];
        if d.len() >= 1 {
            if can_display(&towels, d.as_slice()) {
                count += 1;
            }
        }
        k += 1;
    }
    Some(count)
}

proof fn lemma_count_nonneg(ts: Seq<Seq<u8>>, ds: Seq<Seq<u8>>, k: int)
    ensures
        count_displayable(ts, ds, k) >= 0,
        count_displayable(ts, ds, k) <= if k >= 0 {
            k
        } else {
            0
        },
    decreases k,
{
    if k > 0 {
        lemma_count_nonneg(ts, ds, k - 1);
    }
}

/// The total number of ways over all designs.
pub fn part_two(input: &str) -> (r: Option<u64>)
    ensures
        r == if input.is_ascii() {
            part_two_spec(ascii_bytes(input@))
        } else {
            None::<u64>
        },
{
    let (towels, designs) = match parse(input) {
        Some(p) => p,
        None => {
            return None;
        },
    };
    let ghost ts = towels_spec(ascii_bytes(input@));
    let ghost ds = designs_spec(ascii_bytes(input@));
    proof {
        assert(towels.deep_view() =~~= ts);
    }
    let mut acc: u64 = 0;
    let mut k: usize = 0;
    while k < designs.len()
        invariant
            0 <= k <= designs@.len(),
            input.is_ascii(),
            day_ok(ascii_bytes(input@)),
            ts == towels_spec(ascii_bytes(input@)),
            ds == designs_spec(ascii_bytes(input@)),
            towels.deep_view() == ts,
            towels_ok(ts),
            designs@.len() == ds.len(),
            forall|t: int| 0 <= t < ds.len() ==> designs@[t]@ == ds[t],
            acc == sum_ways(ts, ds, k as int),
            forall|t: int, q: int|
                0 <= t < k && (#[trigger] ds[t]).len() >= 1 && 0 <= q <= ds[t].len() ==> ways(
                    ts,
                    #[trigger] ds[t].skip(q),
                ) <= u64::MAX,
        decreases designs@.len() - k,
    {
        let d = &designs[k];
        if d.len() >= 1 {
            let c = match ways_to_display(&towels, d.as_slice()) {
                Some(c) => c,
                None => {
                    proof {
                        let ghost s = ascii_bytes(input@);
                        let q = choose|q: int|
                            0 <= q <= ds[k as int].len() && ways(ts, ds[k as int].skip(q))
                                > u64::MAX;
                        assert(designs_spec(s)[k as int] == ds[k as int]);
                        assert(0 <= k < designs_spec(s).len() && 0 <= q <= designs_spec(
                            s,
                        )[k as int].len() && designs_spec(s)[k as int].len() >= 1 && ways(
                            towels_spec(s),
                            designs_spec(s)[k as int].skip(q),
                        ) > u64::MAX);
                    }
                    return None;
                },
            };
            match acc.checked_add(c) {
                Some(a) => {
                    acc = a;
                },
                None => {
                    proof {
                        lemma_sum_ways_prefix(ts, ds, k + 1);
                    }
                    return None;
                },
            }
        }
        k += 1;
    }
    proof {
        let ghost s = ascii_bytes(input@);
        assert forall|i: int, q: int|
            0 <= i < designs_spec(s).len() && 0 <= q <= (#[trigger] designs_spec(s)[i]).len()
                && designs_spec(s)[i].len() >= 1 implies !(ways(
            towels_spec(s),
            #[trigger] designs_spec(s)[i].skip(q),
        ) > u64::MAX) by {
            assert(designs_spec(s)[i] == ds[i]);
            assert(ways(ts, ds[i].skip(q)) <= u64::MAX);
        }
    }
    Some(acc)
}

proof fn lemma_sum_ways_prefix(ts: Seq<Seq<u8>>, ds: Seq<Seq<u8>>, k: int)
    requires
        0 <= k <= ds.len(),
    ensures
        sum_ways(ts, ds, k) <= sum_ways(ts, ds, ds.len() as int),
    decreases ds.len() - k,
{
    if k < ds.len() {
        lemma_sum_ways_prefix(ts, ds, k + 1);
        if ds[k].len() >= 1 {
            lemma_ways_nonneg2(ts, ds[k]);
        }
    }
}

} // verus!
