//! Byte-level input handling shared by the puzzle solvers.
//!
//! Puzzle inputs are plain ASCII text.  Solvers turn the input string into a
//! byte vector once and then work on bytes; the spec functions here say
//! exactly how that text is cut into lines, words and numbers.

use vstd::prelude::*;

verus! {

use vstd::string::StrSliceExecFns;
use vstd::string::StringSliceAdditionalSpecFns;

/// The bytes of an ASCII character sequence, one byte per character.
pub open spec fn ascii_bytes(s: Seq<char>) -> Seq<u8> {
    s.map_values(|c: char| c as u8)
}

/// Bytes of an ASCII `&str`, as a `Vec<u8>`.
pub fn bytes_of(s: &str) -> (r: Vec<u8>)
    requires
        s.is_ascii(),
    ensures
        r@ == ascii_bytes(s@),
{
    proof {
        broadcast use vstd::string::is_ascii_spec_bytes;

        assert(s.spec_bytes() =~= ascii_bytes(s@));
    }
    s.as_bytes_vec()
}

/// Copy of `s[a..b]`.
pub fn sub_vec(s: &[u8], a: usize, b: usize) -> (r: Vec<u8>)
    requires
        a <= b <= s@.len(),
    ensures
        r@ == s@.subrange(a as int, b as int),
{
    vstd::slice::slice_to_vec(&s[a..b])
}

/// Index of the first occurrence of `sep` in `s`, or `s.len()` if absent.
pub open spec fn find_sep(s: Seq<u8>, sep: u8) -> int
    decreases s.len(),
{
    if s.len() == 0 {
        0
    } else if s[0] == sep {
        0
    } else {
        1 + find_sep(s.drop_first(), sep)
    }
}

pub proof fn lemma_find_sep(s: Seq<u8>, sep: u8)
    ensures
        0 <= find_sep(s, sep) <= s.len(),
        forall|i: int| 0 <= i < find_sep(s, sep) ==> s[i] != sep,
        find_sep(s, sep) < s.len() ==> s[find_sep(s, sep)] == sep,
    decreases s.len(),
{
    if s.len() > 0 && s[0] != sep {
        lemma_find_sep(s.drop_first(), sep);
        assert forall|i: int| 0 <= i < find_sep(s, sep) implies s[i] != sep by {
            if i > 0 {
                assert(s.drop_first()[i - 1] == s[i]);
            }
        }
    }
}

/// The pieces of `s` cut at every occurrence of `sep` (separators removed);
/// one piece more than there are separators, pieces may be empty.
pub open spec fn split_by(s: Seq<u8>, sep: u8) -> Seq<Seq<u8>>
    decreases s.len(),
{
    let i = find_sep(s, sep);
    if 0 <= i < s.len() {
        seq![s.subrange(0, i)] + split_by(s.subrange(i + 1, s.len() as int), sep)
    } else {
        seq![s]
    }
}

/// Find the first occurrence of `sep` at or after `from`.
pub fn find_byte(s: &[u8], from: usize, sep: u8) -> (r: usize)
    requires
        from <= s@.len(),
    ensures
        from + find_sep(s@.subrange(from as int, s@.len() as int), sep) == r,
        from <= r <= s@.len(),
{
    proof {
        lemma_find_sep(s@.subrange(from as int, s@.len() as int), sep);
    }
    let n = s.len();
    let mut i = from;
    while i < n
        invariant
            from <= i <= n,
            n == s@.len(),
            forall|j: int| from <= j < i ==> s@[j] != sep,
        decreases n - i,
    {
        if s[i] == sep {
            proof {
                lemma_find_sep_at(s@, from as int, i as int, sep);
            }
            return i;
        }
        i += 1;
    }
    proof {
        lemma_find_sep_at(s@, from as int, n as int, sep);
    }
    n
}

/// `find_sep` equals `at - from` on the suffix starting at `from` when the
/// bytes before `at` avoid `sep` and `at` hits it (or the end).
proof fn lemma_find_sep_at(s: Seq<u8>, from: int, at: int, sep: u8)
    requires
        0 <= from <= at <= s.len(),
        forall|j: int| from <= j < at ==> s[j] != sep,
        at < s.len() ==> s[at] == sep,
    ensures
        find_sep(s.subrange(from, s.len() as int), sep) == at - from,
    decreases at - from,
{
    let suf = s.subrange(from, s.len() as int);
    if at == from {
        if suf.len() > 0 {
            assert(suf[0] == s[from]);
        }
    } else {
        assert(suf[0] == s[from]);
        lemma_find_sep_at(s, from + 1, at, sep);
        assert(suf.drop_first() =~= s.subrange(from + 1, s.len() as int));
    }
}

/// Cut `s` at every `sep`, as `split_by` describes.
pub fn split_bytes(s: &[u8], sep: u8) -> (r: Vec<Vec<u8>>)
    ensures
        r@.len() == split_by(s@, sep).len(),
        forall|i: int| 0 <= i < r@.len() ==> r[i]@ == split_by(s@, sep)[i],
    decreases s@.len(),
{
    proof {
        lemma_find_sep(s@, sep);
        assert(s@.subrange(0, s@.len() as int) =~= s@);
    }
    let n = s.len();
    let i = find_byte(s, 0, sep);
    if i == n {
        let mut r: Vec<Vec<u8>> = Vec::new();
        r.push(sub_vec(s, 0, n));
        proof {
            assert(s@.subrange(0, n as int) =~= s@);
        }
        r
    } else {
        let head = sub_vec(s, 0, i);
        let rest = split_bytes(&s[i + 1..n], sep);
        let ghost tail = split_by(s@.subrange(i + 1, s@.len() as int), sep);
        let mut r: Vec<Vec<u8>> = Vec::new();
        r.push(head);
        let mut k: usize = 0;
        while k < rest.len()
            invariant
                0 <= k <= rest.len(),
                r.len() == 1 + k,
                r[0]@ == s@.subrange(0, find_sep(s@, sep)),
                rest@.len() == tail.len(),
                forall|t: int| 0 <= t < rest@.len() ==> rest[t]@ == tail[t],
                forall|t: int| 0 <= t < k ==> r[t + 1]@ == tail[t],
            decreases rest.len() - k,
        {
            let piece = sub_vec(rest[k].as_slice(), 0, rest[k].len());
            proof {
                let rk = rest[k as int]@;
                assert(rk.subrange(0, rk.len() as int) =~= rk);
            }
            r.push(piece);
            k += 1;
        }
        r
    }
}

/// The input cut into lines: pieces between newline bytes, where a final
/// newline does not open an extra empty line.
pub open spec fn lines_spec(s: Seq<u8>) -> Seq<Seq<u8>> {
    if s.len() == 0 {
        Seq::empty()
    } else if s.last() == 10u8 {
        split_by(s.drop_last(), 10u8)
    } else {
        split_by(s, 10u8)
    }
}

/// Cut the input into lines, as `lines_spec` describes.
pub fn lines_of(s: &Vec<u8>) -> (r: Vec<Vec<u8>>)
    ensures
        r@.len() == lines_spec(s@).len(),
        forall|i: int| 0 <= i < r@.len() ==> r[i]@ == lines_spec(s@)[i],
{
    let n = s.len();
    if n == 0 {
        Vec::new()
    } else if s[n - 1] == 10u8 {
        let r = split_bytes(&s.as_slice()[0..n - 1], 10u8);
        proof {
            assert(s@.subrange(0, n - 1) =~= s@.drop_last());
        }
        r
    } else {
        split_bytes(s.as_slice(), 10u8)
    }
}

/// The pieces of `ps` that are not empty, in order.
pub open spec fn nonempty_pieces(ps: Seq<Seq<u8>>) -> Seq<Seq<u8>>
    decreases ps.len(),
{
    if ps.len() == 0 {
        Seq::empty()
    } else {
        let rest = nonempty_pieces(ps.drop_last());
        if ps.last().len() > 0 {
            rest.push(ps.last())
        } else {
            rest
        }
    }
}

/// The non-empty pieces of `s` between space bytes.
pub open spec fn words_spec(s: Seq<u8>) -> Seq<Seq<u8>> {
    nonempty_pieces(split_by(s, 32u8))
}

/// Cut `s` at spaces and keep the non-empty pieces, as `words_spec` describes.
pub fn words_of(s: &[u8]) -> (r: Vec<Vec<u8>>)
    ensures
        r@.len() == words_spec(s@).len(),
        forall|i: int| 0 <= i < r@.len() ==> r[i]@ == words_spec(s@)[i],
{
    let parts = split_bytes(s, 32u8);
    let ghost pieces = split_by(s@, 32u8);
    let mut r: Vec<Vec<u8>> = Vec::new();
    let mut k: usize = 0;
    proof {
        assert(pieces.take(0) =~= Seq::<Seq<u8>>::empty());
    }
    while k < parts.len()
        invariant
            0 <= k <= parts.len(),
            parts@.len() == pieces.len(),
            forall|t: int| 0 <= t < pieces.len() ==> parts[t]@ == pieces[t],
            r@.len() == nonempty_pieces(pieces.take(k as int)).len(),
            forall|i: int|
                0 <= i < r@.len() ==> r[i]@ == nonempty_pieces(pieces.take(k as int))[i],
        decreases parts.len() - k,
    {
        proof {
            assert(pieces.take(k + 1).drop_last() =~= pieces.take(k as int));
            assert(pieces.take(k + 1).last() == pieces[k as int]);
        }
        if parts[k].len() > 0 {
            let piece = sub_vec(parts[k].as_slice(), 0, parts[k].len());
            proof {
                let pk = parts[k as int]@;
                assert(pk.subrange(0, pk.len() as int) =~= pk);
            }
            r.push(piece);
        }
        k += 1;
    }
    proof {
        assert(pieces.take(pieces.len() as int) =~= pieces);
    }
    r
}

/// Index of the first occurrence of the two-byte separator `a b`, or `-1`
/// if there is none.
pub open spec fn find_pair(s: Seq<u8>, a: u8, b: u8) -> int
    decreases s.len(),
{
    if s.len() < 2 {
        -1
    } else if s[0] == a && s[1] == b {
        0
    } else {
        let r = find_pair(s.drop_first(), a, b);
        if r < 0 {
            -1
        } else {
            1 + r
        }
    }
}

proof fn lemma_find_pair(s: Seq<u8>, a: u8, b: u8)
    ensures
        find_pair(s, a, b) == -1 || (0 <= find_pair(s, a, b) && find_pair(s, a, b) + 1
            < s.len()),
    decreases s.len(),
{
    if s.len() >= 2 && !(s[0] == a && s[1] == b) {
        lemma_find_pair(s.drop_first(), a, b);
    }
}

/// The pieces of `s` between occurrences of the two-byte separator `a b`.
pub open spec fn split_pair_spec(s: Seq<u8>, a: u8, b: u8) -> Seq<Seq<u8>>
    decreases s.len(),
{
    let i = find_pair(s, a, b);
    if 0 <= i && i + 2 <= s.len() {
        seq![s.take(i)] + split_pair_spec(s.skip(i + 2), a, b)
    } else {
        seq![s]
    }
}

/// The pieces of `s` between blank lines.
pub open spec fn blocks_spec(s: Seq<u8>) -> Seq<Seq<u8>> {
    split_pair_spec(s, 10u8, 10u8)
}

/// Find the first two-byte separator `a b` at or after `from`.
fn find_pair_at(s: &[u8], from: usize, a: u8, b: u8) -> (r: usize)
    requires
        from <= s@.len(),
    ensures
        r <= s@.len(),
        r < s@.len() ==> r + 2 <= s@.len() && from + find_pair(s@.skip(from as int), a, b) == r,
        r == s@.len() ==> find_pair(s@.skip(from as int), a, b) == -1,
{
    let n = s.len();
    let mut i = from;
    while i < n
        invariant
            from <= i,
            i <= n,
            n == s@.len(),
            forall|j: int|
                from <= j < i && j + 1 < n ==> !(#[trigger] s@[j] == a && s@[j + 1] == b),
        decreases n - i,
    {
        if i + 1 < n && s[i] == a && s[i + 1] == b {
            proof {
                lemma_find_pair_at(s@, from as int, i as int, a, b);
            }
            return i;
        }
        i += 1;
    }
    proof {
        lemma_find_pair_none(s@, from as int, a, b);
    }
    n
}

proof fn lemma_find_pair_at(s: Seq<u8>, from: int, at: int, a: u8, b: u8)
    requires
        0 <= from <= at,
        at + 1 < s.len(),
        forall|j: int| from <= j < at ==> !(#[trigger] s[j] == a && s[j + 1] == b),
        s[at] == a && s[at + 1] == b,
    ensures
        find_pair(s.skip(from), a, b) == at - from,
    decreases at - from,
{
    let suf = s.skip(from);
    if at == from {
        assert(suf[0] == s[from] && suf[1] == s[from + 1]);
    } else {
        assert(suf[0] == s[from] && suf[1] == s[from + 1]);
        lemma_find_pair_at(s, from + 1, at, a, b);
        assert(suf.drop_first() =~= s.skip(from + 1));
    }
}

proof fn lemma_find_pair_none(s: Seq<u8>, from: int, a: u8, b: u8)
    requires
        0 <= from <= s.len(),
        forall|j: int| from <= j && j + 1 < s.len() ==> !(#[trigger] s[j] == a && s[j + 1] == b),
    ensures
        find_pair(s.skip(from), a, b) == -1,
    decreases s.len() - from,
{
    let suf = s.skip(from);
    if suf.len() >= 2 {
        assert(suf[0] == s[from] && suf[1] == s[from + 1]);
        lemma_find_pair_none(s, from + 1, a, b);
        assert(suf.drop_first() =~= s.skip(from + 1));
    }
}

/// Cut `s` at every two-byte separator `a b`, as `split_pair_spec`
/// describes.
pub fn split_pair(s: &[u8], a: u8, b: u8) -> (r: Vec<Vec<u8>>)
    ensures
        r@.len() == split_pair_spec(s@, a, b).len(),
        forall|i: int| 0 <= i < r@.len() ==> r[i]@ == split_pair_spec(s@, a, b)[i],
    decreases s@.len(),
{
    proof {
        lemma_find_pair(s@, a, b);
        assert(s@.skip(0) =~= s@);
    }
    let n = s.len();
    let i = find_pair_at(s, 0, a, b);
    if i == n {
        let mut r: Vec<Vec<u8>> = Vec::new();
        r.push(sub_vec(s, 0, n));
        proof {
            assert(s@.subrange(0, n as int) =~= s@);
        }
        r
    } else {
        let head = sub_vec(s, 0, i);
        let rest = split_pair(&s[i + 2..n], a, b);
        let ghost tail = split_pair_spec(s@.skip(i + 2), a, b);
        proof {
            assert(s@.subrange(i + 2, n as int) =~= s@.skip(i + 2));
        }
        let mut r: Vec<Vec<u8>> = Vec::new();
        r.push(head);
        let mut k: usize = 0;
        while k < rest.len()
            invariant
                0 <= k <= rest.len(),
                r.len() == 1 + k,
                r[0]@ == s@.take(find_pair(s@, a, b)),
                rest@.len() == tail.len(),
                forall|t: int| 0 <= t < rest@.len() ==> rest[t]@ == tail[t],
                forall|t: int| 0 <= t < k ==> r[t + 1]@ == tail[t],
            decreases rest.len() - k,
        {
            let piece = sub_vec(rest[k].as_slice(), 0, rest[k].len());
            proof {
                let rk = rest[k as int]@;
                assert(rk.subrange(0, rk.len() as int) =~= rk);
            }
            r.push(piece);
            k += 1;
        }
        r
    }
}

/// Cut `s` at blank lines.
pub fn split_blocks(s: &[u8]) -> (r: Vec<Vec<u8>>)
    ensures
        r@.len() == blocks_spec(s@).len(),
        forall|i: int| 0 <= i < r@.len() ==> r[i]@ == blocks_spec(s@)[i],
{
    split_pair(s, 10u8, 10u8)
}


/// Every byte of `s` is a decimal digit, and there is at least one.
pub open spec fn is_digits(s: Seq<u8>) -> bool {
    s.len() > 0 && forall|i: int| 0 <= i < s.len() ==> 48 <= #[trigger] s[i] <= 57
}

/// The number the decimal digits of `s` write, most significant first.
pub open spec fn digits_val(s: Seq<u8>) -> int
    decreases s.len(),
{
    if s.len() == 0 {
        0
    } else {
        digits_val(s.drop_last()) * 10 + (s.last() - 48)
    }
}

pub proof fn lemma_digits_val_nonneg(s: Seq<u8>)
    requires
        forall|i: int| 0 <= i < s.len() ==> 48 <= #[trigger] s[i] <= 57,
    ensures
        digits_val(s) >= 0,
    decreases s.len(),
{
    if s.len() > 0 {
        lemma_digits_val_nonneg(s.drop_last());
    }
}

/// A longer digit string never writes a smaller number.
proof fn lemma_digits_val_prefix(s: Seq<u8>, i: int)
    requires
        forall|j: int| 0 <= j < s.len() ==> 48 <= #[trigger] s[j] <= 57,
        0 <= i <= s.len(),
    ensures
        digits_val(s.take(i)) <= digits_val(s),
    decreases s.len() - i,
{
    if i < s.len() {
        lemma_digits_val_prefix(s, i + 1);
        lemma_digits_val_nonneg(s.take(i));
        assert(s.take(i + 1).drop_last() =~= s.take(i));
        assert(digits_val(s.take(i + 1)) == digits_val(s.take(i)) * 10 + (s.take(i + 1).last()
            - 48));
    } else {
        assert(s.take(i) =~= s);
    }
}

/// Parse `s` as a decimal `u64`: `Some` exactly when `s` is all digits and
/// the written number fits.
pub fn parse_u64(s: &[u8]) -> (r: Option<u64>)
    ensures
        match r {
            Some(v) => is_digits(s@) && v == digits_val(s@),
            None => !is_digits(s@) || digits_val(s@) > u64::MAX,
        },
{
    let n = s.len();
    if n == 0 {
        return None;
    }
    let mut acc: u64 = 0;
    let mut i: usize = 0;
    while i < n
        invariant
            0 <= i <= n,
            n == s@.len(),
            forall|j: int| 0 <= j < i ==> 48 <= #[trigger] s@[j] <= 57,
            acc == digits_val(s@.take(i as int)),
        decreases n - i,
    {
        let b = s[i];
        if b < 48 || b > 57 {
            return None;
        }
        let d: u64 = (b - 48) as u64;
        proof {
            assert(s@.take(i + 1).drop_last() =~= s@.take(i as int));
            assert(s@.take(i + 1).last() == s@[i as int]);
        }
        if acc > (u64::MAX - d) / 10 {
            proof {
                assert(acc * 10 + d > u64::MAX) by (nonlinear_arith)
                    requires
                        acc > (u64::MAX - d) / 10,
                        0 <= d <= 9,
                        acc >= 0,
                ;
                if is_digits(s@) {
                    lemma_digits_val_prefix(s@, i + 1);
                    assert(digits_val(s@.take(i + 1)) == acc * 10 + d);
                }
            }
            return None;
        }
        acc = acc * 10 + d;
        i += 1;
    }
    proof {
        assert(s@.take(n as int) =~= s@);
    }
    Some(acc)
}

/// Parse `s` as a decimal `u32`.
pub fn parse_u32(s: &[u8]) -> (r: Option<u32>)
    ensures
        match r {
            Some(v) => is_digits(s@) && v == digits_val(s@),
            None => !is_digits(s@) || digits_val(s@) > u32::MAX,
        },
{
    match parse_u64(s) {
        Some(v) => if v <= u32::MAX as u64 {
            Some(v as u32)
        } else {
            None
        },
        None => None,
    }
}

/// The number a sign-and-digits string writes: a leading `-` negates.
pub open spec fn signed_val(s: Seq<u8>) -> int {
    if s.len() > 0 && s[0] == 45 {
        -digits_val(s.drop_first())
    } else {
        digits_val(s)
    }
}

/// `s` is an optional `-` followed by at least one digit.
pub open spec fn is_signed(s: Seq<u8>) -> bool {
    if s.len() > 0 && s[0] == 45 {
        is_digits(s.drop_first())
    } else {
        is_digits(s)
    }
}

/// Parse `s` as a decimal `i64`, allowing one leading minus sign.
pub fn parse_i64(s: &[u8]) -> (r: Option<i64>)
    ensures
        match r {
            Some(v) => is_signed(s@) && v == signed_val(s@),
            None => !is_signed(s@) || signed_val(s@) > i64::MAX || signed_val(s@) < i64::MIN,
        },
{
    let n = s.len();
    if n > 0 && s[0] == 45 {
        proof {
            assert(s@.subrange(1, n as int) =~= s@.drop_first());
        }
        match parse_u64(&s[1..n]) {
            Some(v) => if v <= i64::MAX as u64 {
                Some(-(v as i64))
            } else if v == i64::MAX as u64 + 1 {
                Some(i64::MIN)
            } else {
                proof {
                    lemma_digits_val_nonneg(s@.drop_first());
                }
                None
            },
            None => {
                proof {
                    if is_digits(s@.drop_first()) {
                        lemma_digits_val_nonneg(s@.drop_first());
                    }
                }
                None
            },
        }
    } else {
        match parse_u64(s) {
            Some(v) => if v <= i64::MAX as u64 {
                Some(v as i64)
            } else {
                None
            },
            None => None,
        }
    }
}

} // verus!
