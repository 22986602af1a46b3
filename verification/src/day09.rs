//! Disk compaction: the input line alternates file lengths and gap
//! lengths.  Files get increasing identifiers; part one moves file blocks
//! one at a time from the end of the disk into the leftmost gaps until
//! the used blocks are contiguous, then sums position times identifier.
//!
//! After compaction, position `p` of the compacted prefix holds its own
//! block where the disk had one, and otherwise the next unused block
//! taken from the end; both reading orders are stated below.

use vstd::prelude::*;

verus! {

use crate::parse::{ascii_bytes, bytes_of, is_digits, lines_spec};

/// The disk the first `k` digits lay out: even digits add blocks of the
/// next file, odd digits add empty space.
pub open spec fn expanded(ds: Seq<u8>, k: int) -> Seq<Option<u64>>
    decreases k,
{
    if k <= 0 {
        Seq::empty()
    } else {
        expanded(ds, k - 1) + Seq::new(
            (ds[k - 1] - 48) as nat,
            |q: int|
                if (k - 1) % 2 == 0 {
                    Some((((k - 1) / 2) as u64))
                } else {
                    None
                },
        )
    }
}

/// The file blocks among the first `p` disk positions, in order.
pub open spec fn somes(d: Seq<Option<u64>>, p: int) -> Seq<u64>
    decreases p,
{
    if p <= 0 {
        Seq::empty()
    } else {
        somes(d, p - 1) + if d[p - 1] is Some {
            seq![d[p - 1]->0]
        } else {
            Seq::<u64>::empty()
        }
    }
}

/// What the compacted disk holds at position `p`: its own block if the
/// disk had one there, else the next unmoved block from the end.
pub open spec fn compacted_at(d: Seq<Option<u64>>, p: int) -> u64 {
    let files = somes(d, d.len() as int);
    if d[p] is Some {
        d[p]->0
    } else {
        files[files.len() - 1 - (p - somes(d, p).len())]
    }
}

/// The checksum of the first `k` compacted positions.
pub open spec fn checksum(d: Seq<Option<u64>>, k: int) -> int
    decreases k,
{
    if k <= 0 {
        0
    } else {
        checksum(d, k - 1) + (k - 1) * compacted_at(d, k - 1)
    }
}

/// The input is one line of digits.
pub open spec fn day_ok(s: Seq<u8>) -> bool {
    lines_spec(s).len() == 1 && is_digits(lines_spec(s)[0])
}

/// What part one answers: the checksum of the compacted disk.
pub open spec fn part_one_spec(s: Seq<u8>) -> Option<u64> {
    if !day_ok(s) {
        None
    } else {
        let d = expanded(lines_spec(s)[0], lines_spec(s)[0].len() as int);
        let total = checksum(d, somes(d, d.len() as int).len() as int);
        if total > u64::MAX {
            None
        } else {
            Some(total as u64)
        }
    }
}

/// Lay the disk out from its digit line.
fn expand(line: &Vec<u8>) -> (d: Vec<Option<u64>>)
    requires
        is_digits(line@),
    ensures
        d@ == expanded(line@, line@.len() as int),
{
    let mut d: Vec<Option<u64>> = Vec::new();
    let mut k: usize = 0;
    proof {
        assert(d@ =~= expanded(line@, 0));
    }
    while k < line.len()
        invariant
            0 <= k <= line@.len(),
            is_digits(line@),
            d@ == expanded(line@, k as int),
        decreases line@.len() - k,
    {
        let n = (line[k] - 48) as usize;
        let ghost before = d@;
        let mut t: usize = 0;
        while t < n
            invariant
                0 <= t <= n,
                0 <= k < line@.len(),
                n == line@[k as int] - 48,
                d@ == before + Seq::new(
                    t as nat,
                    |q: int|
                        if (k as int) % 2 == 0 {
                            Some((((k as int) / 2) as u64))
                        } else {
                            None
                        },
                ),
            decreases n - t,
        {
            if k % 2 == 0 {
                d.push(Some((k / 2) as u64));
            } else {
                d.push(None);
            }
            proof {
                assert(d@ =~= before + Seq::new(
                    (t + 1) as nat,
                    |q: int|
                        if (k as int) % 2 == 0 {
                            Some((((k as int) / 2) as u64))
                        } else {
                            None
                        },
                ));
            }
            t += 1;
        }
        proof {
            assert(d@ =~= expanded(line@, k + 1));
        }
        k += 1;
    }
    d
}

/// Collect the file blocks in order.
fn collect_files(d: &Vec<Option<u64>>) -> (files: Vec<u64>)
    ensures
        files@ == somes(d@, d@.len() as int),
{
    let mut files: Vec<u64> = Vec::new();
    let mut p: usize = 0;
    proof {
        assert(files@ =~= somes(d@, 0));
    }
    while p < d.len()
        invariant
            0 <= p <= d@.len(),
            files@ == somes(d@, p as int),
        decreases d@.len() - p,
    {
        match d[p] {
            Some(v) => {
                files.push(v);
                proof {
                    assert(files@ =~= somes(d@, p + 1));
                }
            },
            None => {
                proof {
                    assert(files@ =~= somes(d@, p + 1));
                }
            },
        }
        p += 1;
    }
    files
}

proof fn lemma_somes_len(d: Seq<Option<u64>>, p: int)
    requires
        0 <= p <= d.len(),
    ensures
        0 <= somes(d, p).len() <= p,
        p < d.len() ==> somes(d, p).len() <= somes(d, p + 1).len(),
    decreases p,
{
    if p > 0 {
        lemma_somes_len(d, p - 1);
    }
}

proof fn lemma_checksum_prefix(d: Seq<Option<u64>>, k: int, n: int)
    requires
        0 <= k <= n,
    ensures
        checksum(d, k) <= checksum(d, n),
    decreases n - k,
{
    if k < n {
        lemma_checksum_prefix(d, k + 1, n);
    }
}

/// The compacted checksum: fill each leftmost gap with the last unmoved
/// block, then sum position times identifier over the used prefix.
pub fn part_one(input: &str) -> (r: Option<u64>)
    ensures
        r == if input.is_ascii() {
            part_one_spec(ascii_bytes(input@))
        } else {
            None::<u64>
        },
{
    if !input.is_ascii() {
        return None;
    }
    let bytes = bytes_of(input);
    let lines = crate::parse::lines_of(&bytes);
    if lines.len() != 1 {
        return None;
    }
    let line = &lines[0];
    let mut q: usize = 0;
    while q < line.len()
        invariant
            0 <= q <= line@.len(),
            line@ == lines_spec(ascii_bytes(input@))[0],
            lines_spec(ascii_bytes(input@)).len() == 1,
            input.is_ascii(),
            forall|t: int| 0 <= t < q ==> 48 <= #[trigger] line@[t] <= 57,
        decreases line@.len() - q,
    {
        let b = line[q];
        if b < 48 || b > 57 {
            return None;
        }
        q += 1;
    }
    if line.len() == 0 {
        return None;
    }
    let d = expand(line);
    let files = collect_files(&d);
    let ghost dd = d@;
    let kk = files.len();
    let mut acc: u64 = 0;
    let mut p: usize = 0;
    let mut a: usize = 0;
    proof {
        lemma_somes_len(dd, dd.len() as int);
        assert(somes(dd, 0) =~= Seq::<u64>::empty());
    }
    while p < kk
        invariant
            0 <= p <= kk,
            input.is_ascii(),
            day_ok(ascii_bytes(input@)),
            dd == expanded(
                lines_spec(ascii_bytes(input@))[0],
                lines_spec(ascii_bytes(input@))[0].len() as int,
            ),
            d@ == dd,
            files@ == somes(dd, dd.len() as int),
            kk == files@.len(),
            kk <= dd.len(),
            a == somes(dd, p as int).len(),
            a <= p,
            acc == checksum(dd, p as int),
        decreases kk - p,
    {
        proof {
            lemma_somes_len(dd, p as int);
        }
        let v: u64 = match d[p] {
            Some(v) => {
                proof {
                    assert(somes(dd, p + 1) =~= somes(dd, p as int).push(dd[p as int]->0));
                }
                a += 1;
                v
            },
            None => {
                proof {
                    assert(somes(dd, p + 1) =~= somes(dd, p as int));
                    assert(kk - 1 - (p - a) >= 0);
                }
                files[kk - 1 - (p - a)]
            },
        };
        proof {
            assert(v == compacted_at(dd, p as int));
        }
        proof {
            assert((p as int) * (v as int) <= u128::MAX) by (nonlinear_arith)
                requires
                    0 <= p <= usize::MAX,
                    0 <= v <= u64::MAX,
            ;
        }
        let prod = (p as u128) * (v as u128);
        if prod > u64::MAX as u128 {
            proof {
                lemma_checksum_prefix(dd, p + 1, kk as int);
            }
            return None;
        }
        match acc.checked_add(prod as u64) {
            Some(s) => {
                acc = s;
            },
            None => {
                proof {
                    lemma_checksum_prefix(dd, p + 1, kk as int);
                }
                return None;
            },
        }
        p += 1;
    }
    Some(acc)
}

} // verus!
