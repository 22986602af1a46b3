//! Blinking stones: a stone numbered 0 becomes 1; one with an even number
//! of digits splits into its two halves; any other is multiplied by 2024.
//! Both parts count how many stones a starting stone becomes after a fixed
//! number of blinks, with an explicit memo table keyed by stone and count.

use vstd::prelude::*;

verus! {

use std::collections::HashMap;
use crate::parse::{ascii_bytes, bytes_of, digits_val, is_digits, words_spec, words_of};
use crate::day07::{digits10, pow10};

/// How many stones one stone numbered `n` becomes after `b` blinks.
pub open spec fn blink_count(n: int, b: nat) -> int
    decreases b,
{
    if b == 0 {
        1
    } else if n == 0 {
        blink_count(1, (b - 1) as nat)
    } else if digits10(n) % 2 == 0 {
        let p = pow10(digits10(n) / 2);
        blink_count(n / p, (b - 1) as nat) + blink_count(n % p, (b - 1) as nat)
    } else {
        blink_count(n * 2024, (b - 1) as nat)
    }
}

/// Every stone value met along the way fits in a `u64`.
pub open spec fn blink_ok(n: int, b: nat) -> bool
    decreases b,
{
    if b == 0 {
        true
    } else if n == 0 {
        blink_ok(1, (b - 1) as nat)
    } else if digits10(n) % 2 == 0 {
        let p = pow10(digits10(n) / 2);
        blink_ok(n / p, (b - 1) as nat) && blink_ok(n % p, (b - 1) as nat)
    } else {
        n * 2024 <= u64::MAX && blink_ok(n * 2024, (b - 1) as nat)
    }
}

/// Every memo entry keyed by stone and blink count holds that pair's
/// exact stone count.
pub open spec fn cache_wf(m: Map<u128, u64>) -> bool {
    forall|k: u128|
        #[trigger] m.dom().contains(k) ==> {
            let n = (k / 256) as int;
            let b = (k % 256) as nat;
            blink_ok(n, b) && m[k] == blink_count(n, b)
        }
}

proof fn lemma_key_decode(n: u64, b: u8)
    ensures
        ((n as u128) * 256 + (b as u128)) / 256 == n,
        ((n as u128) * 256 + (b as u128)) % 256 == b,
{
    let nn = n as int;
    let bb = b as int;
    assert((nn * 256 + bb) / 256 == nn && (nn * 256 + bb) % 256 == bb) by (nonlinear_arith)
        requires
            0 <= bb < 256,
            nn >= 0,
    ;
}

proof fn lemma_blink_count_pos(n: int, b: nat)
    ensures
        blink_count(n, b) >= 1,
    decreases b,
{
    if b > 0 {
        if n == 0 {
            lemma_blink_count_pos(1, (b - 1) as nat);
        } else if digits10(n) % 2 == 0 {
            let p = pow10(digits10(n) / 2);
            lemma_blink_count_pos(n / p, (b - 1) as nat);
            lemma_blink_count_pos(n % p, (b - 1) as nat);
        } else {
            lemma_blink_count_pos(n * 2024, (b - 1) as nat);
        }
    }
}

/// The number of digits of `n`, and ten to half that power when the count
/// is even.
fn digit_split(n: u64) -> (r: (bool, u64))
    requires
        n >= 1,
    ensures
        r.0 == (digits10(n as int) % 2 == 0),
        r.0 ==> r.1 == pow10(digits10(n as int) / 2),
{
    let mut d: u64 = 1;
    let mut t = n;
    let ghost gn = n as int;
    proof {
        lemma_digits10_le_20(gn);
    }
    while t >= 10
        invariant
            gn == n as int,
            1 <= d,
            d + digits10(t as int) == 1 + digits10(gn),
            digits10(t as int) >= 1,
            d <= 21,
            digits10(gn) <= 20,
        decreases t,
    {
        proof {
            assert(digits10(t as int) == 1 + digits10(t as int / 10));
            lemma_digits10_le_20(t as int);
        }
        t = t / 10;
        d = d + 1;
    }
    proof {
        assert(digits10(t as int) == 1);
        assert(d == digits10(gn));
    }
    if d % 2 != 0 {
        return (false, 0);
    }
    let half = d / 2;
    let mut p: u64 = 1;
    let mut k: u64 = 0;
    proof {
        lemma_pow10_le(10);
    }
    while k < half
        invariant
            0 <= k <= half,
            half <= 10,
            half == digits10(gn) / 2,
            p == pow10(k as nat),
            p <= 0x2540BE400,
        decreases half - k,
    {
        proof {
            lemma_pow10_le((k + 1) as nat);
        }
        p = p * 10;
        k = k + 1;
    }
    (true, p)
}

/// Ten to any power up to the tenth stays below 2^64.
proof fn lemma_pow10_le(a: nat)
    requires
        a <= 10,
    ensures
        1 <= pow10(a) <= 0x2540BE400,
    decreases a,
{
    reveal_with_fuel(pow10, 11);
    if a > 0 {
        lemma_pow10_le((a - 1) as nat);
        assert(pow10(a) == 10 * pow10((a - 1) as nat));
        lemma_pow10_mono_local(a, 10);
    }
}

proof fn lemma_pow10_mono_local(a: nat, b: nat)
    requires
        a <= b,
    ensures
        pow10(a) <= pow10(b),
        pow10(a) >= 1,
    decreases b,
{
    if a < b {
        lemma_pow10_mono_local(a, (b - 1) as nat);
        assert(pow10(b) == 10 * pow10((b - 1) as nat));
    } else if a > 0 {
        lemma_pow10_mono_local((a - 1) as nat, (a - 1) as nat);
        assert(pow10(a) == 10 * pow10((a - 1) as nat));
    }
}

/// A `u64` has at most twenty digits.
proof fn lemma_digits10_le_20(n: int)
    requires
        0 <= n <= u64::MAX,
    ensures
        digits10(n) <= 20,
{
    reveal_with_fuel(pow10, 21);
    assert(n < pow10(20));
    lemma_digits10_below(n, 20);
}

proof fn lemma_digits10_below(n: int, d: nat)
    requires
        d >= 1,
        0 <= n < pow10(d),
    ensures
        digits10(n) <= d,
    decreases d,
{
    reveal_with_fuel(pow10, 21);
    if n >= 10 {
        assert(pow10(d) == 10 * pow10((d - 1) as nat));
        assert(n / 10 < pow10((d - 1) as nat)) by (nonlinear_arith)
            requires
                n < 10 * pow10((d - 1) as nat),
                n >= 10,
        ;
        if d - 1 >= 1 {
            lemma_digits10_below(n / 10, (d - 1) as nat);
        } else {
            assert(false);
        }
    }
}

/// Count the stones `n` becomes after `b` blinks, through the memo table.
/// `None` when a stone value or a count leaves `u64`.
fn blink(n: u64, blinks: u8, cache: &mut HashMap<u128, u64>) -> (r: Option<u64>)
    requires
        cache_wf(old(cache)@),
    ensures
        cache_wf(final(cache)@),
        match r {
            Some(c) => blink_ok(n as int, blinks as nat) && c == blink_count(
                n as int,
                blinks as nat,
            ),
            None => !blink_ok(n as int, blinks as nat) || blink_count(n as int, blinks as nat)
                > u64::MAX,
        },
    decreases blinks,
{
    broadcast use vstd::std_specs::hash::group_hash_axioms;

    if blinks == 0 {
        return Some(1);
    }
    let key: u128 = (n as u128) * 256 + (blinks as u128);
    proof {
        lemma_key_decode(n, blinks);
    }
    match cache.get(&key) {
        Some(c) => {
            return Some(*c);
        },
        None => {},
    }
    let result: Option<u64> = if n == 0 {
        blink(1, blinks - 1, cache)
    } else {
        let (even, p) = digit_split(n);
        if even {
            proof {
                lemma_pow10_mono_local(0, digits10(n as int) / 2);
            }
            let first = n / p;
            let second = n % p;
            match blink(first, blinks - 1, cache) {
                Some(a) => match blink(second, blinks - 1, cache) {
                    Some(b) => a.checked_add(b),
                    None => None,
                },
                None => None,
            }
        } else {
            match n.checked_mul(2024) {
                Some(m) => blink(m, blinks - 1, cache),
                None => None,
            }
        }
    };
    match result {
        Some(c) => {
            let ghost before = cache@;
            cache.insert(key, c);
            proof {
                assert forall|k: u128| #[trigger] final(cache)@.dom().contains(k) implies {
                    let nn = (k / 256) as int;
                    let bb = (k % 256) as nat;
                    blink_ok(nn, bb) && final(cache)@[k] == blink_count(nn, bb)
                } by {
                    if k != key {
                        assert(before.dom().contains(k));
                    }
                }
            }
            Some(c)
        },
        None => {
            proof {
                if n != 0 && digits10(n as int) % 2 == 0 {
                    let p = pow10(digits10(n as int) / 2);
                    lemma_blink_count_pos((n as int) / p, (blinks - 1) as nat);
                    lemma_blink_count_pos((n as int) % p, (blinks - 1) as nat);
                }
                if n != 0 && digits10(n as int) % 2 != 0 {
                    if n * 2024 > u64::MAX {
                        assert(!blink_ok(n as int, blinks as nat));
                    }
                }
            }
            None
        },
    }
}

/// `s` with every newline read as a space.
pub open spec fn normalize(s: Seq<u8>) -> Seq<u8> {
    s.map_values(
        |b: u8|
            if b == 10 {
                32u8
            } else {
                b
            },
    )
}

/// The starting stones, one number per whitespace-separated word.
pub open spec fn stones_of(s: Seq<u8>) -> Seq<u64> {
    words_spec(normalize(s)).map_values(|wd: Seq<u8>| digits_val(wd) as u64)
}

pub open spec fn stones_parse(s: Seq<u8>) -> bool {
    forall|i: int|
        0 <= i < words_spec(normalize(s)).len() ==> is_digits(
            #[trigger] words_spec(normalize(s))[i],
        ) && digits_val(words_spec(normalize(s))[i]) <= u64::MAX
}

/// Every starting stone stays within `u64` for `b` blinks, and its count
/// fits too.
pub open spec fn stones_ok(vals: Seq<u64>, b: nat) -> bool {
    forall|i: int|
        0 <= i < vals.len() ==> blink_ok(#[trigger] vals[i] as int, b) && blink_count(
            vals[i] as int,
            b,
        ) <= u64::MAX
}

pub open spec fn sum_counts(vals: Seq<u64>, b: nat) -> int
    decreases vals.len(),
{
    if vals.len() == 0 {
        0
    } else {
        sum_counts(vals.drop_last(), b) + blink_count(vals.last() as int, b)
    }
}

pub open spec fn blinks_spec(s: Seq<u8>, b: nat) -> Option<u64> {
    if !stones_parse(s) {
        None
    } else if !stones_ok(stones_of(s), b) {
        None
    } else if sum_counts(stones_of(s), b) > u64::MAX {
        None
    } else {
        Some(sum_counts(stones_of(s), b) as u64)
    }
}

pub open spec fn part_one_spec(s: Seq<u8>) -> Option<u64> {
    blinks_spec(s, 25)
}

pub open spec fn part_two_spec(s: Seq<u8>) -> Option<u64> {
    blinks_spec(s, 75)
}

/// Parse the starting stones.
pub fn parse(input: &str) -> (r: Option<Vec<u64>>)
    ensures
        match r {
            Some(v) => input.is_ascii() && stones_parse(ascii_bytes(input@)) && v@ == stones_of(
                ascii_bytes(input@),
            ),
            None => !input.is_ascii() || !stones_parse(ascii_bytes(input@)),
        },
{
    if !input.is_ascii() {
        return None;
    }
    let bytes = bytes_of(input);
    let mut cleaned: Vec<u8> = Vec::new();
    let mut k: usize = 0;
    while k < bytes.len()
        invariant
            0 <= k <= bytes@.len(),
            cleaned@.len() == k,
            forall|t: int| 0 <= t < k ==> cleaned@[t] == normalize(bytes@)[t],
        decreases bytes@.len() - k,
    {
        let b = bytes[k];
        if b == 10 {
            cleaned.push(32);
        } else {
            cleaned.push(b);
        }
        k += 1;
    }
    proof {
        assert(cleaned@ =~= normalize(bytes@));
    }
    let words = words_of(cleaned.as_slice());
    let ghost ws = words_spec(normalize(bytes@));
    let mut v: Vec<u64> = Vec::new();
    let mut i: usize = 0;
    while i < words.len()
        invariant
            0 <= i <= words@.len(),
            input.is_ascii(),
            ws == words_spec(normalize(ascii_bytes(input@))),
            words@.len() == ws.len(),
            forall|t: int| 0 <= t < ws.len() ==> words[t]@ == ws[t],
            forall|t: int|
                0 <= t < i ==> is_digits(#[trigger] ws[t]) && digits_val(ws[t]) <= u64::MAX,
            v@.len() == i,
            forall|t: int| 0 <= t < i ==> v@[t] == digits_val(ws[t]),
        decreases words@.len() - i,
    {
        match crate::parse::parse_u64(words[i].as_slice()) {
            Some(x) => {
                v.push(x);
            },
            None => {
                proof {
                    assert(!(is_digits(ws[i as int]) && digits_val(ws[i as int]) <= u64::MAX));
                }
                return None;
            },
        }
        i += 1;
    }
    proof {
        assert(v@ =~= stones_of(ascii_bytes(input@)));
    }
    Some(v)
}

fn solve(input: &str, blinks: u8) -> (r: Option<u64>)
    ensures
        r == if input.is_ascii() {
            blinks_spec(ascii_bytes(input@), blinks as nat)
        } else {
            None::<u64>
        },
{
    let vals = match parse(input) {
        Some(v) => v,
        None => {
            return None;
        },
    };
    let ghost vs = vals@;
    let mut cache: HashMap<u128, u64> = HashMap::new();
    proof {
        broadcast use vstd::std_specs::hash::group_hash_axioms;

        assert(cache_wf(cache@));
        assert(vs.take(0) =~= Seq::<u64>::empty());
    }
    let mut acc: u64 = 0;
    let mut i: usize = 0;
    while i < vals.len()
        invariant
            0 <= i <= vals@.len(),
            vals@ == vs,
            input.is_ascii(),
            vs == stones_of(ascii_bytes(input@)),
            stones_parse(ascii_bytes(input@)),
            cache_wf(cache@),
            forall|t: int|
                0 <= t < i ==> blink_ok(#[trigger] vs[t] as int, blinks as nat) && blink_count(
                    vs[t] as int,
                    blinks as nat,
                ) <= u64::MAX,
            acc == sum_counts(vs.take(i as int), blinks as nat),
        decreases vals@.len() - i,
    {
        proof {
            assert(vs.take(i + 1).drop_last() =~= vs.take(i as int));
            assert(vs.take(i + 1).last() == vs[i as int]);
        }
        let c = match blink(vals[i], blinks, &mut cache) {
            Some(c) => c,
            None => {
                proof {
                    assert(!(blink_ok(vs[i as int] as int, blinks as nat) && blink_count(
                        vs[i as int] as int,
                        blinks as nat,
                    ) <= u64::MAX));
                }
                return None;
            },
        };
        match acc.checked_add(c) {
            Some(a) => {
                acc = a;
            },
            None => {
                proof {
                    lemma_sum_prefix(vs, i + 1, blinks as nat);
                }
                return None;
            },
        }
        i += 1;
    }
    proof {
        assert(vs.take(vs.len() as int) =~= vs);
    }
    Some(acc)
}

proof fn lemma_sum_prefix(vals: Seq<u64>, i: int, b: nat)
    requires
        0 <= i <= vals.len(),
    ensures
        sum_counts(vals.take(i), b) <= sum_counts(vals, b),
    decreases vals.len() - i,
{
    if i < vals.len() {
        lemma_sum_prefix(vals, i + 1, b);
        assert(vals.take(i + 1).drop_last() =~= vals.take(i));
        assert(vals.take(i + 1).last() == vals[i]);
        lemma_blink_count_pos(vals[i] as int, b);
    } else {
        assert(vals.take(i) =~= vals);
    }
}

/// Total stones after 25 blinks.
pub fn part_one(input: &str) -> (r: Option<u64>)
    ensures
        r == if input.is_ascii() {
            part_one_spec(ascii_bytes(input@))
        } else {
            None::<u64>
        },
{
    solve(input, 25)
}

/// Total stones after 75 blinks.
pub fn part_two(input: &str) -> (r: Option<u64>)
    ensures
        r == if input.is_ascii() {
            part_two_spec(ascii_bytes(input@))
        } else {
            None::<u64>
        },
{
    solve(input, 75)
}

} // verus!
