//! Pseudorandom "secret numbers": each step mixes shifted copies of the
//! number into itself and prunes it to 24 bits.  Part one sums everybody's
//! 2000th secret; part two finds the four-change sequence of price deltas
//! that earns the most bananas across all buyers.

use vstd::prelude::*;

verus! {

use crate::parse::{ascii_bytes, bytes_of, digits_val, is_digits, lines_spec, lines_of, parse_u64};

/// One step of the secret-number sequence.
pub open spec fn next_spec(a: usize) -> usize {
    let b = (a ^ (a << 6)) & 0xFFFFFF;
    let c = (b ^ (b >> 5)) & 0xFFFFFF;
    (c ^ (c << 11)) & 0xFFFFFF
}

/// The `k`-th secret number after `a`.
pub open spec fn secret_n(a: usize, k: nat) -> usize
    decreases k,
{
    if k == 0 {
        a
    } else {
        next_spec(secret_n(a, (k - 1) as nat))
    }
}

/// Mix `b` into the secret `a`.
pub fn mix(a: usize, b: usize) -> (r: usize)
    ensures
        r == (a ^ b),
{
    a ^ b
}

/// Prune a secret to its lowest 24 bits.
pub fn prune(a: usize) -> (r: usize)
    ensures
        r == (a & 0xFFFFFF),
{
    a & 0xFFFFFF
}

/// The next secret number.
pub fn next(a: usize) -> (r: usize)
    ensures
        r == next_spec(a),
{
    let mut a = a;
    a = prune(mix(a, a << 6));
    a = prune(mix(a, a >> 5));
    a = prune(mix(a, a << 11));
    a
}

/// Every line is a number that fits in a `usize`.
pub open spec fn all_numbers(ls: Seq<Seq<u8>>) -> bool {
    forall|i: int|
        0 <= i < ls.len() ==> is_digits(#[trigger] ls[i]) && digits_val(ls[i]) <= usize::MAX
}

/// The numbers the lines hold.
pub open spec fn line_vals(ls: Seq<Seq<u8>>) -> Seq<usize> {
    ls.map_values(|l: Seq<u8>| digits_val(l) as usize)
}

/// Parse one starting number per line; `None` if a line is not a number.
pub fn parse(input: &str) -> (r: Option<Vec<usize>>)
    ensures
        match r {
            Some(v) => input.is_ascii() && all_numbers(lines_spec(ascii_bytes(input@)))
                && v@ == line_vals(lines_spec(ascii_bytes(input@))),
            None => !input.is_ascii() || !all_numbers(lines_spec(ascii_bytes(input@))),
        },
{
    if !input.is_ascii() {
        return None;
    }
    let bytes = bytes_of(input);
    let lines = lines_of(&bytes);
    let ghost ls = lines_spec(bytes@);
    let mut v: Vec<usize> = Vec::new();
    let mut k: usize = 0;
    while k < lines.len()
        invariant
            0 <= k <= lines@.len(),
            ls == lines_spec(ascii_bytes(input@)),
            lines@.len() == ls.len(),
            forall|t: int| 0 <= t < ls.len() ==> lines@[t]@ == ls[t],
            forall|t: int|
                0 <= t < k ==> is_digits(#[trigger] ls[t]) && digits_val(ls[t]) <= usize::MAX,
            v@.len() == k,
            forall|t: int| 0 <= t < k ==> v@[t] == digits_val(ls[t]),
        decreases lines@.len() - k,
    {
        match parse_u64(lines[k].as_slice()) {
            Some(x) => {
                if x <= usize::MAX as u64 {
                    v.push(x as usize);
                } else {
                    proof {
                        assert(!(is_digits(ls[k as int]) && digits_val(ls[k as int])
                            <= usize::MAX));
                    }
                    return None;
                }
            },
            None => {
                proof {
                    assert(!(is_digits(ls[k as int]) && digits_val(ls[k as int])
                        <= usize::MAX));
                }
                return None;
            },
        }
        k += 1;
    }
    proof {
        assert(v@ =~= line_vals(ls));
    }
    Some(v)
}

/// Sum of everybody's 2000th secret.
pub open spec fn sum_secrets(vals: Seq<usize>) -> int
    decreases vals.len(),
{
    if vals.len() == 0 {
        0
    } else {
        sum_secrets(vals.drop_last()) + secret_n(vals.last(), 2000)
    }
}

/// What part one answers: the sum of the 2000th secrets, if the input
/// parses and the sum fits in a `usize`.
pub open spec fn part_one_spec(s: Seq<u8>) -> Option<usize> {
    if !all_numbers(lines_spec(s)) {
        None
    } else {
        let total = sum_secrets(line_vals(lines_spec(s)));
        if total <= usize::MAX {
            Some(total as usize)
        } else {
            None
        }
    }
}

/// Run the secret sequence forward `steps` times.
fn advance(a: usize, steps: usize) -> (r: usize)
    ensures
        r == secret_n(a, steps as nat),
{
    let mut cur = a;
    let mut k: usize = 0;
    while k < steps
        invariant
            0 <= k <= steps,
            cur == secret_n(a, k as nat),
        decreases steps - k,
    {
        cur = next(cur);
        k += 1;
    }
    cur
}

proof fn lemma_sum_secrets_prefix(vals: Seq<usize>, i: int)
    requires
        0 <= i <= vals.len(),
    ensures
        sum_secrets(vals.take(i)) <= sum_secrets(vals),
    decreases vals.len() - i,
{
    if i < vals.len() {
        lemma_sum_secrets_prefix(vals, i + 1);
        assert(vals.take(i + 1).drop_last() =~= vals.take(i));
        assert(vals.take(i + 1).last() == vals[i]);
        lemma_sum_secrets_nonneg(vals.take(i));
    } else {
        assert(vals.take(i) =~= vals);
    }
}

proof fn lemma_sum_secrets_nonneg(vals: Seq<usize>)
    ensures
        sum_secrets(vals) >= 0,
    decreases vals.len(),
{
    if vals.len() > 0 {
        lemma_sum_secrets_nonneg(vals.drop_last());
    }
}

/// Sum of the buyers' 2000th secret numbers.
pub fn part_one(input: &str) -> (r: Option<usize>)
    ensures
        r == if input.is_ascii() {
            part_one_spec(ascii_bytes(input@))
        } else {
            None::<usize>
        },
{
    let vals = match parse(input) {
        Some(v) => v,
        None => {
            return None;
        },
    };
    let ghost vs = vals@;
    let mut acc: usize = 0;
    let mut i: usize = 0;
    proof {
        assert(vs.take(0) =~= Seq::<usize>::empty());
    }
    while i < vals.len()
        invariant
            0 <= i <= vals@.len(),
            vals@ == vs,
            input.is_ascii(),
            vs == line_vals(lines_spec(ascii_bytes(input@))),
            all_numbers(lines_spec(ascii_bytes(input@))),
            acc == sum_secrets(vs.take(i as int)),
        decreases vals@.len() - i,
    {
        proof {
            assert(vs.take(i + 1).drop_last() =~= vs.take(i as int));
            assert(vs.take(i + 1).last() == vs[i as int]);
        }
        let s = advance(vals[i], 2000);
        match acc.checked_add(s) {
            Some(a) => {
                acc = a;
            },
            None => {
                proof {
                    lemma_sum_secrets_prefix(vs, i + 1);
                }
                return None;
            },
        }
        i += 1;
    }
    proof {
        assert(vs.take(vs.len() as int) =~= vs);
    }
    Some(acc)
}

/// The ones digit of the `i`-th secret: the price a buyer offers then.
pub open spec fn price(n: usize, i: nat) -> int {
    (secret_n(n, i) % 10) as int
}

/// The four price changes starting at step `i`, packed into one number in
/// base 19 (each change lies in `-9..=9`).
pub open spec fn win_code(n: usize, i: nat) -> int {
    let d0 = price(n, i + 1) + 9 - price(n, i);
    let d1 = price(n, i + 2) + 9 - price(n, i + 1);
    let d2 = price(n, i + 3) + 9 - price(n, i + 2);
    let d3 = price(n, i + 4) + 9 - price(n, i + 3);
    ((d0 * 19 + d1) * 19 + d2) * 19 + d3
}

/// What the buyer with secret `n` pays for `key`, scanning windows from
/// step `i` on: the price right after the first window matching `key`.
pub open spec fn buyer_value_from(n: usize, key: int, i: nat) -> int
    decreases 1997 - i,
{
    if i >= 1997 {
        0
    } else if win_code(n, i) == key {
        price(n, i + 4)
    } else {
        buyer_value_from(n, key, i + 1)
    }
}

/// What the buyer with secret `n` pays for the change sequence `key`.
pub open spec fn buyer_value(n: usize, key: int) -> int {
    buyer_value_from(n, key, 0)
}

/// Bananas earned for `key` over all buyers.
pub open spec fn total_at(vals: Seq<usize>, key: int) -> int
    decreases vals.len(),
{
    if vals.len() == 0 {
        0
    } else {
        total_at(vals.drop_last(), key) + buyer_value(vals.last(), key)
    }
}

/// The best total over the change-sequence keys below `k`.
pub open spec fn best_upto(vals: Seq<usize>, k: nat) -> int
    decreases k,
{
    if k == 0 {
        0
    } else {
        let rest = best_upto(vals, (k - 1) as nat);
        if total_at(vals, k - 1) > rest {
            total_at(vals, k - 1)
        } else {
            rest
        }
    }
}

/// What part two answers: the most bananas any four-change sequence earns,
/// if the input parses, has at least one buyer, and no total overflows.
pub open spec fn part_two_spec(s: Seq<u8>) -> Option<usize> {
    if !all_numbers(lines_spec(s)) {
        None
    } else {
        let vals = line_vals(lines_spec(s));
        if vals.len() == 0 {
            None
        } else if exists|key: int| 0 <= key < 130321 && total_at(vals, key) > usize::MAX {
            None
        } else {
            Some(best_upto(vals, 130321) as usize)
        }
    }
}

proof fn lemma_buyer_value_bounds(n: usize, key: int, i: nat)
    ensures
        0 <= buyer_value_from(n, key, i) <= 9,
    decreases 1997 - i,
{
    if i < 1997 && win_code(n, i) != key {
        lemma_buyer_value_bounds(n, key, i + 1);
    }
}

proof fn lemma_total_at_nonneg(vals: Seq<usize>, key: int)
    ensures
        total_at(vals, key) >= 0,
    decreases vals.len(),
{
    if vals.len() > 0 {
        lemma_total_at_nonneg(vals.drop_last(), key);
        lemma_buyer_value_bounds(vals.last(), key, 0);
    }
}

proof fn lemma_total_at_prefix(vals: Seq<usize>, key: int, i: int)
    requires
        0 <= i <= vals.len(),
    ensures
        total_at(vals.take(i), key) <= total_at(vals, key),
    decreases vals.len() - i,
{
    if i < vals.len() {
        lemma_total_at_prefix(vals, key, i + 1);
        assert(vals.take(i + 1).drop_last() =~= vals.take(i));
        assert(vals.take(i + 1).last() == vals[i]);
        lemma_buyer_value_bounds(vals[i], key, 0);
    } else {
        assert(vals.take(i) =~= vals);
    }
}

/// The 2001 prices of one buyer.
fn prices_of(n: usize) -> (p: Vec<usize>)
    ensures
        p@.len() == 2001,
        forall|i: int| 0 <= i < 2001 ==> p@[i] == price(n, i as nat),
{
    let mut p: Vec<usize> = Vec::new();
    let mut cur = n;
    let mut k: usize = 0;
    while k < 2001
        invariant
            0 <= k <= 2001,
            cur == secret_n(n, k as nat),
            p@.len() == k,
            forall|i: int| 0 <= i < k ==> p@[i] == price(n, i as nat),
        decreases 2001 - k,
    {
        p.push(cur % 10);
        cur = next(cur);
        k += 1;
    }
    p
}

/// Add one buyer's payouts into `acc`: for each change sequence, the price
/// after its first occurrence.  `false` when some total leaves `usize`.
fn add_buyer(
    acc: &mut Vec<usize>,
    n: usize,
    Ghost(vals): Ghost<Seq<usize>>,
    Ghost(b): Ghost<int>,
) -> (ok: bool)
    requires
        old(acc)@.len() == 130321,
        0 <= b < vals.len(),
        vals[b] == n,
        forall|key: int|
            0 <= key < 130321 ==> old(acc)@[key] == total_at(vals.take(b), key),
    ensures
        final(acc)@.len() == 130321,
        ok ==> forall|key: int|
            0 <= key < 130321 ==> final(acc)@[key] == total_at(vals.take(b + 1), key),
        !ok ==> exists|key: int| 0 <= key < 130321 && total_at(vals, key) > usize::MAX,
{
    proof {
        assert(vals.take(b + 1).drop_last() =~= vals.take(b));
        assert(vals.take(b + 1).last() == vals[b]);
    }
    let p = prices_of(n);
    let mut seen: Vec<bool> = Vec::new();
    let mut z: usize = 0;
    while z < 130321
        invariant
            seen@.len() == z <= 130321,
            forall|key: int| 0 <= key < z ==> !seen@[key],
        decreases 130321 - z,
    {
        seen.push(false);
        z += 1;
    }
    let mut i: usize = 0;
    while i < 1997
        invariant
            0 <= i <= 1997,
            p@.len() == 2001,
            forall|t: int| 0 <= t < 2001 ==> p@[t] == price(n, t as nat),
            forall|t: int| 0 <= t < 2001 ==> 0 <= #[trigger] p@[t] < 10,
            seen@.len() == 130321,
            acc@.len() == 130321,
            0 <= b < vals.len(),
            vals[b] == n,
            forall|key: int|
                #![trigger seen@[key]]
                0 <= key < 130321 ==> {
                    if seen@[key] {
                        acc@[key] == total_at(vals.take(b), key) + buyer_value(n, key)
                    } else {
                        acc@[key] == total_at(vals.take(b), key) && buyer_value_from(
                            n,
                            key,
                            i as nat,
                        ) == buyer_value(n, key)
                    }
                },
        decreases 1997 - i,
    {
        let d0 = p[i + 1] + 9 - p[i];
        let d1 = p[i + 2] + 9 - p[i + 1];
        let d2 = p[i + 3] + 9 - p[i + 2];
        let d3 = p[i + 4] + 9 - p[i + 3];
        let code = ((d0 * 19 + d1) * 19 + d2) * 19 + d3;
        proof {
            assert(code == win_code(n, i as nat));
            assert(0 <= code < 130321);
        }
        let ghost old_seen = seen@;
        if !seen[code] {
            seen.set(code, true);
            let v = p[i + 4];
            proof {
                assert(buyer_value_from(n, code as int, i as nat) == price(n, (i + 4) as nat));
            }
            match acc[code].checked_add(v) {
                Some(s) => {
                    acc.set(code, s);
                },
                None => {
                    proof {
                        assert(vals.take(b + 1).drop_last() =~= vals.take(b));
                        assert(vals.take(b + 1).last() == vals[b]);
                        lemma_buyer_value_bounds(n, code as int, 0);
                        lemma_total_at_prefix(vals, code as int, b + 1);
                        assert(total_at(vals.take(b + 1), code as int) == total_at(
                            vals.take(b),
                            code as int,
                        ) + buyer_value(n, code as int));
                        assert(total_at(vals, code as int) > usize::MAX);
                    }
                    return false;
                },
            }
        }
        proof {
            assert forall|key: int| 0 <= key < 130321 && !seen@[key] implies buyer_value_from(
                n,
                key,
                (i + 1) as nat,
            ) == buyer_value(n, key) by {
                assert(!old_seen[key]);
                assert(win_code(n, i as nat) != key);
                assert(buyer_value_from(n, key, i as nat) == buyer_value_from(
                    n,
                    key,
                    (i + 1) as nat,
                ));
            }
        }
        i += 1;
    }
    proof {
        assert forall|key: int| 0 <= key < 130321 implies acc@[key] == total_at(
            vals.take(b + 1),
            key,
        ) by {
            if !seen@[key] {
                assert(buyer_value_from(n, key, 1997) == 0);
            }
            assert(total_at(vals.take(b + 1), key) == total_at(vals.take(b), key) + buyer_value(
                n,
                key,
            ));
        }
    }
    true
}

/// The best number of bananas any four-change sequence earns.
pub fn part_two(input: &str) -> (r: Option<usize>)
    ensures
        r == if input.is_ascii() {
            part_two_spec(ascii_bytes(input@))
        } else {
            None::<usize>
        },
{
    let vals = match parse(input) {
        Some(v) => v,
        None => {
            return None;
        },
    };
    if vals.len() == 0 {
        return None;
    }
    let ghost vs = vals@;
    let mut acc: Vec<usize> = Vec::new();
    let mut z: usize = 0;
    proof {
        assert(vs.take(0) =~= Seq::<usize>::empty());
    }
    while z < 130321
        invariant
            acc@.len() == z <= 130321,
            forall|key: int| 0 <= key < z ==> acc@[key] == 0,
        decreases 130321 - z,
    {
        acc.push(0);
        z += 1;
    }
    let mut b: usize = 0;
    proof {
        assert forall|key: int| 0 <= key < 130321 implies acc@[key] == total_at(
            vs.take(0),
            key,
        ) by {
            assert(total_at(vs.take(0), key) == 0);
        }
    }
    while b < vals.len()
        invariant
            0 <= b <= vals@.len(),
            vals@ == vs,
            vs.len() > 0,
            input.is_ascii(),
            vs == line_vals(lines_spec(ascii_bytes(input@))),
            all_numbers(lines_spec(ascii_bytes(input@))),
            acc@.len() == 130321,
            forall|key: int| 0 <= key < 130321 ==> acc@[key] == total_at(vs.take(b as int), key),
        decreases vals@.len() - b,
    {
        let n = vals[b];
        let ok = add_buyer(&mut acc, n, Ghost(vs), Ghost(b as int));
        if !ok {
            return None;
        }
        b += 1;
    }
    proof {
        assert(vs.take(vs.len() as int) =~= vs);
    }
    let mut best: usize = 0;
    let mut k: usize = 0;
    while k < 130321
        invariant
            0 <= k <= 130321,
            input.is_ascii(),
            vs == line_vals(lines_spec(ascii_bytes(input@))),
            all_numbers(lines_spec(ascii_bytes(input@))),
            vs.len() > 0,
            acc@.len() == 130321,
            forall|key: int| 0 <= key < 130321 ==> acc@[key] == total_at(vs, key),
            best == best_upto(vs, k as nat),
        decreases 130321 - k,
    {
        if acc[k] > best {
            best = acc[k];
        }
        k += 1;
    }
    proof {
        assert forall|key: int| 0 <= key < 130321 implies !(total_at(vs, key)
            > usize::MAX) by {
            assert(acc@[key] == total_at(vs, key));
        }
    }
    Some(best)
}

} // verus!
