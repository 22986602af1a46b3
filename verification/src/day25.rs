//! Lock and key schematics: blocks of rows of `#` and `.`.  A block whose
//! first row starts with `#` is a lock, any other is a key; each column's
//! filled cells are counted (skipping a lock's top row or a key's bottom
//! row).  Part one counts the lock/key pairs whose columns never overlap.

use vstd::prelude::*;

verus! {

use crate::parse::{ascii_bytes, blocks_spec, bytes_of, lines_spec, lines_of, split_blocks};

/// Filled cells in rows `lo..hi` of column `col`.
pub open spec fn col_count(ls: Seq<Seq<u8>>, lo: int, hi: int, col: int) -> int
    decreases hi - lo,
{
    if hi <= lo {
        0
    } else {
        col_count(ls, lo, hi - 1, col) + if 0 <= hi - 1 < ls.len() && col < ls[hi - 1].len()
            && ls[hi - 1][col] == 35 {
            1int
        } else {
            0int
        }
    }
}

/// A block is a lock when its first row opens with `#`.
pub open spec fn is_lock(ls: Seq<Seq<u8>>) -> bool {
    ls.len() > 0 && ls[0].len() > 0 && ls[0][0] == 35
}

/// The pin height of one column: a lock skips its top row, a key its
/// bottom row.
pub open spec fn pin(ls: Seq<Seq<u8>>, col: int) -> int {
    if is_lock(ls) {
        col_count(ls, 1, ls.len() as int, col)
    } else {
        col_count(ls, 0, ls.len() as int - 1, col)
    }
}

/// A block this solver accepts: between one and 255 rows, none wider than
/// five columns.
pub open spec fn block_ok(ls: Seq<Seq<u8>>) -> bool {
    1 <= ls.len() <= 255 && forall|r: int| 0 <= r < ls.len() ==> (#[trigger] ls[r]).len() <= 5
}

/// Lines of block `i` of the input.
pub open spec fn block_lines(s: Seq<u8>, i: int) -> Seq<Seq<u8>> {
    lines_spec(blocks_spec(s)[i])
}

/// Blocks `i` (a lock) and `j` (a key) fit: no column's pins overlap.
pub open spec fn pair_fits(s: Seq<u8>, i: int, j: int) -> bool {
    &&& is_lock(block_lines(s, i))
    &&& !is_lock(block_lines(s, j))
    &&& forall|c: int|
        0 <= c < 5 ==> pin(block_lines(s, i), c) + pin(#[trigger] block_lines(s, j), c) <= 5
}

/// Fitting partners of block `i` among the first `k` blocks.
pub open spec fn count_for(s: Seq<u8>, i: int, k: int) -> int
    decreases k,
{
    if k <= 0 {
        0
    } else {
        count_for(s, i, k - 1) + if pair_fits(s, i, k - 1) {
            1int
        } else {
            0int
        }
    }
}

/// Fitting lock/key pairs with the lock among the first `k` blocks.
pub open spec fn total_pairs(s: Seq<u8>, k: int) -> int
    decreases k,
{
    if k <= 0 {
        0
    } else {
        total_pairs(s, k - 1) + count_for(s, k - 1, blocks_spec(s).len() as int)
    }
}

pub open spec fn day_ok(s: Seq<u8>) -> bool {
    forall|i: int| 0 <= i < blocks_spec(s).len() ==> block_ok(#[trigger] block_lines(s, i))
}

pub open spec fn part_one_spec(s: Seq<u8>) -> Option<u32> {
    if !day_ok(s) {
        None
    } else if total_pairs(s, blocks_spec(s).len() as int) > u32::MAX {
        None
    } else {
        Some(total_pairs(s, blocks_spec(s).len() as int) as u32)
    }
}

/// A parsed schematic: its kind and its five pin heights.
pub enum Schematic {
    Lock(Vec<u8>),
    Key(Vec<u8>),
}

impl Schematic {
    pub open spec fn pins_of(self) -> Seq<u8> {
        match self {
            Schematic::Lock(p) => p@,
            Schematic::Key(p) => p@,
        }
    }

    pub open spec fn lock_of(self) -> bool {
        self is Lock
    }

    /// Read a schematic off its rows; `None` when a row is wider than the
    /// five columns or the block is empty or taller than 255 rows.
    pub fn from(lines: &Vec<Vec<u8>>) -> (r: Option<Schematic>)
        ensures
            match r {
                Some(sch) => {
                    &&& block_ok(lines.deep_view())
                    &&& sch.lock_of() == is_lock(lines.deep_view())
                    &&& sch.pins_of().len() == 5
                    &&& forall|c: int|
                        0 <= c < 5 ==> sch.pins_of()[c] == pin(lines.deep_view(), c)
                },
                None => !block_ok(lines.deep_view()),
            },
    {
        let ghost gls = lines.deep_view();
        proof {
            assert(gls.len() == lines@.len());
            assert forall|t: int| 0 <= t < lines@.len() implies #[trigger] gls[t]
                =~= lines@[t]@ by {}
        }
        let n = lines.len();
        if n == 0 || n > 255 {
            return None;
        }
        let mut t: usize = 0;
        while t < n
            invariant
                0 <= t <= n,
                n == lines@.len(),
                gls == lines.deep_view(),
                gls.len() == n,
                forall|q: int| 0 <= q < gls.len() ==> #[trigger] gls[q] == lines@[q]@,
                forall|q: int| 0 <= q < t ==> (#[trigger] gls[q]).len() <= 5,
            decreases n - t,
        {
            if lines[t].len() > 5 {
                proof {
                    assert(gls[t as int].len() > 5);
                }
                return None;
            }
            t += 1;
        }
        let lock = lines[0].len() > 0 && lines[0][0] == 35;
        proof {
            assert(lock == is_lock(gls));
        }
        let (lo, hi): (usize, usize) = if lock {
            (1, n)
        } else {
            (0, n - 1)
        };
        let mut pins: Vec<u8> = Vec::new();
        let mut c: usize = 0;
        while c < 5
            invariant
                0 <= c <= 5,
                n == lines@.len(),
                gls == lines.deep_view(),
                gls.len() == n,
                forall|q: int| 0 <= q < gls.len() ==> #[trigger] gls[q] == lines@[q]@,
                lo <= hi <= n,
                hi - lo <= 255,
                pins@.len() == c,
                forall|q: int| 0 <= q < c ==> pins@[q] == col_count(gls, lo as int, hi as int, q),
            decreases 5 - c,
        {
            let mut cnt: u8 = 0;
            let mut r: usize = lo;
            while r < hi
                invariant
                    lo <= r <= hi <= n,
                    n == lines@.len(),
                    gls == lines.deep_view(),
                    gls.len() == n,
                    forall|q: int| 0 <= q < gls.len() ==> #[trigger] gls[q] == lines@[q]@,
                    hi - lo <= 255,
                    cnt == col_count(gls, lo as int, r as int, c as int),
                    cnt <= r - lo,
                decreases hi - r,
            {
                let line = &lines[r];
                if c < line.len() && line[c] == 35 {
                    cnt += 1;
                }
                r += 1;
            }
            pins.push(cnt);
            c += 1;
        }
        if lock {
            Some(Schematic::Lock(pins))
        } else {
            Some(Schematic::Key(pins))
        }
    }
}

/// A lock and a key fit when no column's pins add past five.
pub fn matches(lock: &Vec<u8>, key: &Vec<u8>) -> (r: bool)
    requires
        lock@.len() == 5,
        key@.len() == 5,
    ensures
        r == forall|c: int| 0 <= c < 5 ==> lock@[c] + key@[c] <= 5,
{
    let mut c: usize = 0;
    while c < 5
        invariant
            0 <= c <= 5,
            lock@.len() == 5,
            key@.len() == 5,
            forall|q: int| 0 <= q < c ==> lock@[q] + key@[q] <= 5,
        decreases 5 - c,
    {
        if lock[c] as u32 + key[c] as u32 > 5 {
            return false;
        }
        c += 1;
    }
    true
}

/// Parse every block into a schematic.
pub fn parse(input: &str) -> (r: Option<Vec<Schematic>>)
    ensures
        match r {
            Some(v) => {
                &&& input.is_ascii()
                &&& day_ok(ascii_bytes(input@))
                &&& v@.len() == blocks_spec(ascii_bytes(input@)).len()
                &&& forall|i: int|
                    0 <= i < v@.len() ==> {
                        &&& (#[trigger] v@[i]).lock_of() == is_lock(
                            block_lines(ascii_bytes(input@), i),
                        )
                        &&& v@[i].pins_of().len() == 5
                        &&& forall|c: int|
                            0 <= c < 5 ==> v@[i].pins_of()[c] == pin(
                                block_lines(ascii_bytes(input@), i),
                                c,
                            )
                    }
            },
            None => !input.is_ascii() || !day_ok(ascii_bytes(input@)),
        },
{
    if !input.is_ascii() {
        return None;
    }
    let bytes = bytes_of(input);
    let blocks = split_blocks(bytes.as_slice());
    let mut v: Vec<Schematic> = Vec::new();
    let mut i: usize = 0;
    while i < blocks.len()
        invariant
            0 <= i <= blocks@.len(),
            input.is_ascii(),
            bytes@ == ascii_bytes(input@),
            blocks@.len() == blocks_spec(bytes@).len(),
            forall|t: int| 0 <= t < blocks@.len() ==> blocks[t]@ == blocks_spec(bytes@)[t],
            v@.len() == i,
            forall|t: int| 0 <= t < i ==> block_ok(#[trigger] block_lines(bytes@, t)),
            forall|t: int|
                0 <= t < i ==> {
                    &&& (#[trigger] v@[t]).lock_of() == is_lock(block_lines(bytes@, t))
                    &&& v@[t].pins_of().len() == 5
                    &&& forall|c: int|
                        0 <= c < 5 ==> v@[t].pins_of()[c] == pin(block_lines(bytes@, t), c)
                },
        decreases blocks@.len() - i,
    {
        let lines = lines_of(&blocks[i]);
        proof {
            assert(lines.deep_view().len() == lines@.len());
            assert forall|q: int| 0 <= q < lines@.len() implies #[trigger] lines.deep_view()[q]
                =~= lines@[q]@ by {}
            assert(lines.deep_view() =~~= block_lines(bytes@, i as int));
        }
        match Schematic::from(&lines) {
            Some(sch) => {
                v.push(sch);
            },
            None => {
                return None;
            },
        }
        i += 1;
    }
    Some(v)
}

/// The number of lock/key pairs that fit.
pub fn part_one(input: &str) -> (r: Option<u32>)
    ensures
        r == if input.is_ascii() {
            part_one_spec(ascii_bytes(input@))
        } else {
            None::<u32>
        },
{
    let schs = match parse(input) {
        Some(v) => v,
        None => {
            return None;
        },
    };
    let ghost s = ascii_bytes(input@);
    let n = schs.len();
    let mut acc: u32 = 0;
    let mut i: usize = 0;
    while i < n
        invariant
            0 <= i <= n,
            input.is_ascii(),
            s == ascii_bytes(input@),
            day_ok(s),
            n == schs@.len(),
            n == blocks_spec(s).len(),
            forall|t: int|
                0 <= t < n ==> {
                    &&& (#[trigger] schs@[t]).lock_of() == is_lock(block_lines(s, t))
                    &&& schs@[t].pins_of().len() == 5
                    &&& forall|c: int|
                        0 <= c < 5 ==> schs@[t].pins_of()[c] == pin(block_lines(s, t), c)
                },
            acc == total_pairs(s, i as int),
        decreases n - i,
    {
        let lock = match &schs[i] {
            Schematic::Lock(p) => Some(p),
            Schematic::Key(_) => None,
        };
        match lock {
            Some(lp) => {
                let mut j: usize = 0;
                let mut cnt: usize = 0;
                while j < n
                    invariant
                        0 <= j <= n,
                        0 <= i < n,
                        input.is_ascii(),
                        s == ascii_bytes(input@),
                        day_ok(s),
                        n == schs@.len(),
                        n == blocks_spec(s).len(),
                        forall|t: int|
                            0 <= t < n ==> {
                                &&& (#[trigger] schs@[t]).lock_of() == is_lock(
                                    block_lines(s, t),
                                )
                                &&& schs@[t].pins_of().len() == 5
                                &&& forall|c: int|
                                    0 <= c < 5 ==> schs@[t].pins_of()[c] == pin(
                                        block_lines(s, t),
                                        c,
                                    )
                            },
                        lp@ == schs@[i as int].pins_of(),
                        schs@[i as int].lock_of(),
                        cnt == count_for(s, i as int, j as int),
                        cnt <= j,
                    decreases n - j,
                {
                    let fits: bool;
                    match &schs[j] {
                        Schematic::Key(kp) => {
                            let f = matches(lp, kp);
                            proof {
                                assert(kp@ == schs@[j as int].pins_of());
                                assert(!schs@[j as int].lock_of());
                                assert forall|c: int| 0 <= c < 5 implies kp@[c] == pin(
                                    block_lines(s, j as int),
                                    c,
                                ) && lp@[c] == pin(block_lines(s, i as int), c) by {
                                    assert(schs@[j as int].pins_of()[c] == pin(
                                        block_lines(s, j as int),
                                        c,
                                    ));
                                    assert(schs@[i as int].pins_of()[c] == pin(
                                        block_lines(s, i as int),
                                        c,
                                    ));
                                }
                                assert(f == pair_fits(s, i as int, j as int));
                            }
                            fits = f;
                        },
                        Schematic::Lock(_) => {
                            proof {
                                assert(schs@[j as int].lock_of());
                                assert(!pair_fits(s, i as int, j as int));
                            }
                            fits = false;
                        },
                    }
                    if fits {
                        cnt += 1;
                    }
                    j += 1;
                }
                if cnt > u32::MAX as usize {
                    proof {
                        lemma_total_prefix(s, i + 1);
                        lemma_total_nonneg(s, i as int);
                    }
                    return None;
                }
                match acc.checked_add(cnt as u32) {
                    Some(a) => {
                        acc = a;
                    },
                    None => {
                        proof {
                            lemma_total_prefix(s, i + 1);
                        }
                        return None;
                    },
                }
            },
            None => {
                proof {
                    lemma_count_for_not_lock(s, i as int, n as int);
                }
            },
        }
        i += 1;
    }
    Some(acc)
}

/// A key fits nobody as a lock.
proof fn lemma_count_for_not_lock(s: Seq<u8>, i: int, k: int)
    requires
        !is_lock(block_lines(s, i)),
    ensures
        count_for(s, i, k) == 0,
    decreases k,
{
    if k > 0 {
        lemma_count_for_not_lock(s, i, k - 1);
    }
}

proof fn lemma_total_prefix(s: Seq<u8>, k: int)
    requires
        0 <= k <= blocks_spec(s).len(),
    ensures
        total_pairs(s, k) <= total_pairs(s, blocks_spec(s).len() as int),
    decreases blocks_spec(s).len() - k,
{
    if k < blocks_spec(s).len() {
        lemma_total_prefix(s, k + 1);
        lemma_count_for_nonneg(s, k, blocks_spec(s).len() as int);
    }
}

proof fn lemma_total_nonneg(s: Seq<u8>, k: int)
    ensures
        total_pairs(s, k) >= 0,
    decreases k,
{
    if k > 0 {
        lemma_total_nonneg(s, k - 1);
        lemma_count_for_nonneg(s, k - 1, blocks_spec(s).len() as int);
    }
}

proof fn lemma_count_for_nonneg(s: Seq<u8>, i: int, k: int)
    ensures
        count_for(s, i, k) >= 0,
    decreases k,
{
    if k > 0 {
        lemma_count_for_nonneg(s, i, k - 1);
    }
}

/// The second half of the puzzle asks nothing more.
pub fn part_two(input: &str) -> (r: Option<u32>)
    ensures
        r is None,
{
    let _ = input;
    None
}

} // verus!
