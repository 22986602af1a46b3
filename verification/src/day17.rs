//! A tiny three-bit machine: eight opcodes over registers A, B and C.
//! Part one runs a program and prints its comma-separated output; part two
//! searches for the smallest A that makes the program output itself,
//! probing one output position at a time from the highest octal digit down.

use vstd::prelude::*;

verus! {

use crate::parse::{
    ascii_bytes, bytes_of, digits_val, find_sep, is_digits, lines_spec, parse_u64, split_by,
};

/// One decoded instruction.
#[derive(Clone, Copy, PartialEq, Eq, Structural)]
pub enum Instruction {
    Adv(u64),
    Bxl(u64),
    Bst(u64),
    Jnz(u64),
    Bxc,
    Out(u64),
    Bdv(u64),
    Cdv(u64),
}

impl Instruction {
    /// Decode an opcode and its operand; the opcode must be below eight.
    pub fn from(ins: u8, operant: u64) -> (r: Option<Instruction>)
        ensures
            r == decode(ins, operant),
    {
        match ins {
            0 => Some(Instruction::Adv(operant)),
            1 => Some(Instruction::Bxl(operant)),
            2 => Some(Instruction::Bst(operant)),
            3 => Some(Instruction::Jnz(operant)),
            4 => Some(Instruction::Bxc),
            5 => Some(Instruction::Out(operant)),
            6 => Some(Instruction::Bdv(operant)),
            7 => Some(Instruction::Cdv(operant)),
            _ => None,
        }
    }
}

pub open spec fn decode(ins: u8, operant: u64) -> Option<Instruction> {
    if ins == 0 {
        Some(Instruction::Adv(operant))
    } else if ins == 1 {
        Some(Instruction::Bxl(operant))
    } else if ins == 2 {
        Some(Instruction::Bst(operant))
    } else if ins == 3 {
        Some(Instruction::Jnz(operant))
    } else if ins == 4 {
        Some(Instruction::Bxc)
    } else if ins == 5 {
        Some(Instruction::Out(operant))
    } else if ins == 6 {
        Some(Instruction::Bdv(operant))
    } else if ins == 7 {
        Some(Instruction::Cdv(operant))
    } else {
        None
    }
}

/// The value a combo operand denotes, if it is valid.
pub open spec fn combo_spec(operant: u64, a: u64, b: u64, c: u64) -> Option<u64> {
    if operant <= 3 {
        Some(operant)
    } else if operant == 4 {
        Some(a)
    } else if operant == 5 {
        Some(b)
    } else if operant == 6 {
        Some(c)
    } else {
        None
    }
}

/// The value of a combo operand; `None` for the reserved operand seven and
/// beyond, where the machine stops (the original program gives up there).
pub fn combo_operant(operant: u64, regs: &[u64]) -> (r: Option<u64>)
    requires
        regs@.len() == 3,
    ensures
        r == combo_spec(operant, regs@[0], regs@[1], regs@[2]),
{
    if operant <= 3 {
        Some(operant)
    } else if operant == 4 {
        Some(regs[0])
    } else if operant == 5 {
        Some(regs[1])
    } else if operant == 6 {
        Some(regs[2])
    } else {
        None
    }
}

/// The machine state after one instruction, and what it emits: registers,
/// instruction pointer and one optional output word.  `None` when the
/// instruction is invalid (a bad combo operand, a shift beyond 63 bits, or
/// an odd jump target).
pub open spec fn step_spec(ins: Instruction, a: u64, b: u64, c: u64, ip: nat) -> Option<
    (u64, u64, u64, nat, Option<u64>),
> {
    match ins {
        Instruction::Adv(op) => match combo_spec(op, a, b, c) {
            Some(sh) => if sh < 64 {
                Some(((a as nat / pow2(sh as nat)) as u64, b, c, ip + 1, None))
            } else {
                None
            },
            None => None,
        },
        Instruction::Bxl(op) => Some((a, b ^ op, c, ip + 1, None)),
        Instruction::Bst(op) => match combo_spec(op, a, b, c) {
            Some(v) => Some((a, (v % 8) as u64, c, ip + 1, None)),
            None => None,
        },
        Instruction::Jnz(op) => if a != 0 {
            if op % 2 == 0 {
                Some((a, b, c, (op / 2) as nat, None))
            } else {
                None
            }
        } else {
            Some((a, b, c, ip + 1, None))
        },
        Instruction::Bxc => Some((a, b ^ c, c, ip + 1, None)),
        Instruction::Out(op) => match combo_spec(op, a, b, c) {
            Some(v) => Some((a, b, c, ip + 1, Some((v % 8) as u64))),
            None => None,
        },
        Instruction::Bdv(op) => match combo_spec(op, a, b, c) {
            Some(sh) => if sh < 64 {
                Some((a, (a as nat / pow2(sh as nat)) as u64, c, ip + 1, None))
            } else {
                None
            },
            None => None,
        },
        Instruction::Cdv(op) => match combo_spec(op, a, b, c) {
            Some(sh) => if sh < 64 {
                Some((a, b, (a as nat / pow2(sh as nat)) as u64, ip + 1, None))
            } else {
                None
            },
            None => None,
        },
    }
}

pub open spec fn pow2(e: nat) -> nat
    decreases e,
{
    if e == 0 {
        1
    } else {
        2 * pow2((e - 1) as nat)
    }
}

/// What the machine outputs from the given state within `fuel` steps:
/// `None` when it hits an invalid instruction or runs out of fuel before
/// halting.
pub open spec fn run_spec(
    prog: Seq<Instruction>,
    a: u64,
    b: u64,
    c: u64,
    ip: nat,
    fuel: nat,
) -> Option<Seq<u64>>
    decreases fuel,
{
    if ip >= prog.len() {
        Some(Seq::empty())
    } else if fuel == 0 {
        None
    } else {
        match step_spec(prog[ip as int], a, b, c, ip) {
            Some(st) => match run_spec(prog, st.0, st.1, st.2, st.3, (fuel - 1) as nat) {
                Some(rest) => match st.4 {
                    Some(o) => Some(seq![o] + rest),
                    None => Some(rest),
                },
                None => None,
            },
            None => None,
        }
    }
}

/// A program that halts within some step budget keeps its output under
/// any larger budget: `part_one`'s fixed budget only ever cuts off
/// programs still running after a million steps.
pub proof fn lemma_run_fuel_mono(
    prog: Seq<Instruction>,
    a: u64,
    b: u64,
    c: u64,
    ip: nat,
    f1: nat,
    f2: nat,
)
    requires
        run_spec(prog, a, b, c, ip, f1) is Some,
        f1 <= f2,
    ensures
        run_spec(prog, a, b, c, ip, f2) == run_spec(prog, a, b, c, ip, f1),
    decreases f1,
{
    if ip < prog.len() {
        match step_spec(prog[ip as int], a, b, c, ip) {
            Some(st) => {
                lemma_run_fuel_mono(prog, st.0, st.1, st.2, st.3, (f1 - 1) as nat, (f2 - 1) as nat);
            },
            None => {},
        }
    }
}

/// Two raised to a small power.
fn pow2_exec(e: u64) -> (r: u64)
    requires
        e < 64,
    ensures
        r == pow2(e as nat),
        r >= 1,
{
    proof {
        lemma_pow2_bounds(e as nat);
    }
    let mut r: u64 = 1;
    let mut k: u64 = 0;
    while k < e
        invariant
            0 <= k <= e < 64,
            r == pow2(k as nat),
            r >= 1,
        decreases e - k,
    {
        proof {
            lemma_pow2_bounds((k + 1) as nat);
        }
        r = r * 2;
        k = k + 1;
    }
    r
}

proof fn lemma_pow2_bounds(e: nat)
    requires
        e <= 63,
    ensures
        1 <= pow2(e) <= 0x8000_0000_0000_0000,
    decreases e,
{
    reveal_with_fuel(pow2, 64);
    assert(pow2(63) == 0x8000_0000_0000_0000);
    if e > 0 {
        lemma_pow2_bounds((e - 1) as nat);
        lemma_pow2_mono(e, 63);
    }
}

proof fn lemma_pow2_mono(a: nat, b: nat)
    requires
        a <= b,
        b <= 63,
    ensures
        pow2(a) <= pow2(b),
    decreases b,
{
    reveal_with_fuel(pow2, 64);
    if a < b {
        lemma_pow2_mono(a, (b - 1) as nat);
    }
}

/// Execute one instruction, as `step_spec` describes.
fn do_step(ins: Instruction, a: u64, b: u64, c: u64, ip: u64) -> (r: Option<
    (u64, u64, u64, u64, Option<u64>),
>)
    requires
        ip < u64::MAX,
    ensures
        match r {
            Some(st) => step_spec(ins, a, b, c, ip as nat) == Some(
                (st.0, st.1, st.2, st.3 as nat, st.4),
            ),
            None => step_spec(ins, a, b, c, ip as nat) is None,
        },
{
    let regs = [a, b, c];
    match ins {
        Instruction::Adv(op) => match combo_operant(op, &regs) {
            Some(sh) => if sh < 64 {
                let p = pow2_exec(sh);
                Some((a / p, b, c, ip + 1, None))
            } else {
                None
            },
            None => None,
        },
        Instruction::Bxl(op) => Some((a, b ^ op, c, ip + 1, None)),
        Instruction::Bst(op) => match combo_operant(op, &regs) {
            Some(v) => Some((a, v % 8, c, ip + 1, None)),
            None => None,
        },
        Instruction::Jnz(op) => if a != 0 {
            if op % 2 == 0 {
                Some((a, b, c, op / 2, None))
            } else {
                None
            }
        } else {
            Some((a, b, c, ip + 1, None))
        },
        Instruction::Bxc => Some((a, b ^ c, c, ip + 1, None)),
        Instruction::Out(op) => match combo_operant(op, &regs) {
            Some(v) => Some((a, b, c, ip + 1, Some(v % 8))),
            None => None,
        },
        Instruction::Bdv(op) => match combo_operant(op, &regs) {
            Some(sh) => if sh < 64 {
                let p = pow2_exec(sh);
                Some((a, a / p, c, ip + 1, None))
            } else {
                None
            },
            None => None,
        },
        Instruction::Cdv(op) => match combo_operant(op, &regs) {
            Some(sh) => if sh < 64 {
                let p = pow2_exec(sh);
                Some((a, b, a / p, ip + 1, None))
            } else {
                None
            },
            None => None,
        },
    }
}

/// Run the program for at most `fuel` steps and collect its output words.
pub fn run(instructions: &Vec<Instruction>, reg_a: u64, fuel: u64) -> (r: Option<Vec<u64>>)
    ensures
        match r {
            Some(out) => run_spec(instructions@, reg_a, 0, 0, 0, fuel as nat) == Some(out@),
            None => run_spec(instructions@, reg_a, 0, 0, 0, fuel as nat) is None,
        },
{
    let mut a = reg_a;
    let mut b: u64 = 0;
    let mut c: u64 = 0;
    let mut ip: u64 = 0;
    let mut left = fuel;
    let mut out: Vec<u64> = Vec::new();
    let ghost prog = instructions@;
    loop
        invariant
            prog == instructions@,
            match run_spec(prog, reg_a, 0, 0, 0, fuel as nat) {
                Some(full) => run_spec(prog, a, b, c, ip as nat, left as nat) is Some && full
                    == out@ + run_spec(prog, a, b, c, ip as nat, left as nat)->0,
                None => run_spec(prog, a, b, c, ip as nat, left as nat) is None,
            },
        ensures
            match run_spec(prog, reg_a, 0, 0, 0, fuel as nat) {
                Some(full) => full == out@,
                None => false,
            },
        decreases left,
    {
        if ip >= instructions.len() as u64 {
            proof {
                assert(run_spec(prog, a, b, c, ip as nat, left as nat) == Some(
                    Seq::<u64>::empty(),
                ));
                if run_spec(prog, reg_a, 0, 0, 0, fuel as nat) is Some {
                    assert(run_spec(prog, reg_a, 0, 0, 0, fuel as nat)->0 =~= out@);
                }
            }
            break;
        }
        if left == 0 {
            return None;
        }
        let ins = instructions[ip as usize];
        let ghost out_old = out@;
        match do_step(ins, a, b, c, ip) {
            Some(st) => {
                let (a2, b2, c2, ip2, emit) = st;
                match emit {
                    Some(o) => {
                        out.push(o);
                    },
                    None => {},
                }
                proof {
                    let cur = run_spec(prog, a, b, c, ip as nat, left as nat);
                    let next = run_spec(prog, a2, b2, c2, ip2 as nat, (left - 1) as nat);
                    if run_spec(prog, reg_a, 0, 0, 0, fuel as nat) is Some {
                        let full = run_spec(prog, reg_a, 0, 0, 0, fuel as nat)->0;
                        assert(cur is Some);
                        assert(next is Some);
                        match emit {
                            Some(o) => {
                                assert(cur->0 =~= seq![o] + next->0);
                                assert(out@ =~= out_old.push(o));
                                assert(full =~= out@ + next->0);
                            },
                            None => {
                                assert(cur->0 == next->0);
                            },
                        }
                    } else {
                        assert(cur is None);
                        assert(next is None);
                    }
                }
                a = a2;
                b = b2;
                c = c2;
                ip = ip2;
                left = left - 1;
            },
            None => {
                proof {
                    assert(run_spec(prog, a, b, c, ip as nat, left as nat) is None);
                }
                return None;
            },
        }
    }
    Some(out)
}

/// The comma-separated rendering of the output words (all below eight).
pub open spec fn render(out: Seq<u64>) -> Seq<char>
    decreases out.len(),
{
    if out.len() == 0 {
        Seq::empty()
    } else if out.len() == 1 {
        seq![digit_char(out[0])]
    } else {
        render(out.drop_last()) + seq![','] + seq![digit_char(out.last())]
    }
}

pub open spec fn digit_char(v: u64) -> char {
    if v == 0 {
        '0'
    } else if v == 1 {
        '1'
    } else if v == 2 {
        '2'
    } else if v == 3 {
        '3'
    } else if v == 4 {
        '4'
    } else if v == 5 {
        '5'
    } else if v == 6 {
        '6'
    } else {
        '7'
    }
}

/// Append one digit below eight to the string.
fn push_digit(s: &mut String, v: u64)
    requires
        v < 8,
    ensures
        final(s)@ == old(s)@ + seq![digit_char(v)],
{
    proof {
        reveal_strlit("0");
        reveal_strlit("1");
        reveal_strlit("2");
        reveal_strlit("3");
        reveal_strlit("4");
        reveal_strlit("5");
        reveal_strlit("6");
        reveal_strlit("7");
    }
    let d: &str = if v == 0 {
        "0"
    } else if v == 1 {
        "1"
    } else if v == 2 {
        "2"
    } else if v == 3 {
        "3"
    } else if v == 4 {
        "4"
    } else if v == 5 {
        "5"
    } else if v == 6 {
        "6"
    } else {
        "7"
    };
    vstd::string::StringExecFns::append(s, d);
    proof {
        assert(final(s)@ =~= old(s)@ + seq![digit_char(v)]);
    }
}

/// Render the output words with comma separators.
fn render_exec(out: &Vec<u64>) -> (s: String)
    requires
        forall|i: int| 0 <= i < out@.len() ==> #[trigger] out@[i] < 8,
    ensures
        s@ == render(out@),
{
    let mut s = String::new();
    let mut i: usize = 0;
    proof {
        assert(out@.take(0) =~= Seq::<u64>::empty());
    }
    while i < out.len()
        invariant
            0 <= i <= out@.len(),
            forall|t: int| 0 <= t < out@.len() ==> #[trigger] out@[t] < 8,
            s@ == render(out@.take(i as int)),
        decreases out@.len() - i,
    {
        proof {
            assert(out@.take(i + 1).drop_last() =~= out@.take(i as int));
            assert(out@.take(i + 1).last() == out@[i as int]);
        }
        if i > 0 {
            proof {
                reveal_strlit(",");
            }
            vstd::string::StringExecFns::append(&mut s, ",");
        }
        push_digit(&mut s, out[i]);
        proof {
            assert(s@ =~= render(out@.take(i + 1)));
        }
        i += 1;
    }
    proof {
        assert(out@.take(out@.len() as int) =~= out@);
    }
    s
}

/// Output words are always below eight.
proof fn lemma_run_small(prog: Seq<Instruction>, a: u64, b: u64, c: u64, ip: nat, fuel: nat)
    requires
        run_spec(prog, a, b, c, ip, fuel) is Some,
    ensures
        forall|i: int|
            0 <= i < run_spec(prog, a, b, c, ip, fuel)->0.len() ==> #[trigger] run_spec(
                prog,
                a,
                b,
                c,
                ip,
                fuel,
            )->0[i] < 8,
    decreases fuel,
{
    if ip < prog.len() && fuel > 0 {
        match step_spec(prog[ip as int], a, b, c, ip) {
            Some(st) => {
                lemma_run_small(prog, st.0, st.1, st.2, st.3, (fuel - 1) as nat);
            },
            None => {},
        }
    }
}

/// The register A value and the program words of the input, when it has
/// the expected shape.
pub open spec fn parsed_spec(s: Seq<u8>) -> Option<(u64, Seq<u64>)> {
    let ls = lines_spec(s);
    if ls.len() < 5 {
        None
    } else {
        let a_line = ls[0];
        let p_line = ls[4];
        let ai = find_sep(a_line, 58);
        let pi = find_sep(p_line, 58);
        if !(0 <= ai && ai + 2 <= a_line.len() && 0 <= pi && pi + 2 <= p_line.len()) {
            None
        } else {
            let a_txt = a_line.skip(ai + 2);
            let nums = split_by(p_line.skip(pi + 2), 44);
            if !(is_digits(a_txt) && digits_val(a_txt) <= u64::MAX) {
                None
            } else if !(forall|i: int|
                0 <= i < nums.len() ==> is_digits(#[trigger] nums[i]) && digits_val(nums[i])
                    <= u64::MAX) {
                None
            } else {
                Some((digits_val(a_txt) as u64, nums.map_values(|t: Seq<u8>| digits_val(t) as u64)))
            }
        }
    }
}

/// Parse register A and the program words.  The input must hold the three
/// register lines, a blank line, and the program line.
pub fn parse(input: &str) -> (r: Option<(u64, Vec<u64>)>)
    ensures
        match r {
            Some(p) => input.is_ascii() && parsed_spec(ascii_bytes(input@)) == Some(
                (p.0, p.1@),
            ),
            None => !input.is_ascii() || parsed_spec(ascii_bytes(input@)) is None,
        },
{
    if !input.is_ascii() {
        return None;
    }
    let bytes = bytes_of(input);
    let lines = crate::parse::lines_of(&bytes);
    if lines.len() < 5 {
        return None;
    }
    let a_line = &lines[0];
    let p_line = &lines[4];
    let ai = crate::parse::find_byte(a_line.as_slice(), 0, 58);
    let pi = crate::parse::find_byte(p_line.as_slice(), 0, 58);
    proof {
        assert(a_line@.subrange(0, a_line@.len() as int) =~= a_line@);
        assert(p_line@.subrange(0, p_line@.len() as int) =~= p_line@);
    }
    if a_line.len() < 2 || ai > a_line.len() - 2 || p_line.len() < 2 || pi > p_line.len()
        - 2 {
        return None;
    }
    let a_txt = crate::parse::sub_vec(a_line.as_slice(), ai + 2, a_line.len());
    proof {
        assert(a_txt@ =~= a_line@.skip(ai + 2));
    }
    let a_val = match parse_u64(a_txt.as_slice()) {
        Some(v) => v,
        None => {
            return None;
        },
    };
    let p_txt = crate::parse::sub_vec(p_line.as_slice(), pi + 2, p_line.len());
    proof {
        assert(p_txt@ =~= p_line@.skip(pi + 2));
    }
    let words = crate::parse::split_bytes(p_txt.as_slice(), 44);
    let ghost nums = split_by(p_line@.skip(pi + 2), 44);
    proof {
        let s = ascii_bytes(input@);
        let pl = lines_spec(s)[4];
        assert(nums == split_by(pl.skip(find_sep(pl, 58) + 2), 44));
    }
    let mut vals: Vec<u64> = Vec::new();
    let mut k: usize = 0;
    while k < words.len()
        invariant
            input.is_ascii(),
            lines_spec(ascii_bytes(input@)).len() >= 5,
            nums == split_by(
                lines_spec(ascii_bytes(input@))[4].skip(
                    find_sep(lines_spec(ascii_bytes(input@))[4], 58) + 2,
                ),
                44,
            ),
            ({
                let al = lines_spec(ascii_bytes(input@))[0];
                &&& 0 <= find_sep(al, 58)
                &&& find_sep(al, 58) + 2 <= al.len()
                &&& is_digits(al.skip(find_sep(al, 58) + 2))
                &&& digits_val(al.skip(find_sep(al, 58) + 2)) <= u64::MAX
            }),
            ({
                let pl = lines_spec(ascii_bytes(input@))[4];
                &&& 0 <= find_sep(pl, 58)
                &&& find_sep(pl, 58) + 2 <= pl.len()
            }),
            0 <= k <= words@.len(),
            words@.len() == nums.len(),
            forall|t: int| 0 <= t < nums.len() ==> words[t]@ == nums[t],
            forall|t: int|
                0 <= t < k ==> is_digits(#[trigger] nums[t]) && digits_val(nums[t]) <= u64::MAX,
            vals@.len() == k,
            forall|t: int| 0 <= t < k ==> vals@[t] == digits_val(nums[t]),
        decreases words@.len() - k,
    {
        match parse_u64(words[k].as_slice()) {
            Some(v) => {
                vals.push(v);
            },
            None => {
                proof {
                    assert(!(is_digits(nums[k as int]) && digits_val(nums[k as int])
                        <= u64::MAX));
                }
                return None;
            },
        }
        k += 1;
    }
    proof {
        assert(vals@ =~= nums.map_values(|t: Seq<u8>| digits_val(t) as u64));
    }
    Some((a_val, vals))
}

/// Turn the program words into instructions; `None` when the word count is
/// odd or an opcode is not below eight.
pub open spec fn decoded_spec(nums: Seq<u64>) -> Option<Seq<Instruction>>
    decreases nums.len(),
{
    if nums.len() == 0 {
        Some(Seq::empty())
    } else if nums.len() == 1 {
        None
    } else {
        match decoded_spec(nums.drop_last().drop_last()) {
            Some(rest) => if nums[nums.len() - 2] < 256 {
                match decode(nums[nums.len() - 2] as u8, nums.last()) {
                    Some(i) => Some(rest.push(i)),
                    None => None,
                }
            } else {
                None
            },
            None => None,
        }
    }
}

fn decode_program(nums: &Vec<u64>) -> (r: Option<Vec<Instruction>>)
    ensures
        match r {
            Some(v) => decoded_spec(nums@) == Some(v@),
            None => decoded_spec(nums@) is None,
        },
{
    let n = nums.len();
    if n % 2 != 0 {
        proof {
            lemma_decoded_odd(nums@);
        }
        return None;
    }
    let mut v: Vec<Instruction> = Vec::new();
    let mut k: usize = 0;
    proof {
        assert(nums@.take(0) =~= Seq::<u64>::empty());
    }
    while k + 1 < n
        invariant
            0 <= k <= n,
            k % 2 == 0,
            n % 2 == 0,
            n == nums@.len(),
            decoded_spec(nums@.take(k as int)) == Some(v@),
        decreases n - k,
    {
        let ins = nums[k];
        let op = nums[k + 1];
        proof {
            assert(nums@.take(k + 2).drop_last() =~= nums@.take(k + 1));
            assert(nums@.take(k + 1).drop_last() =~= nums@.take(k as int));
            assert(nums@.take(k + 2).last() == nums@[k + 1]);
            assert(nums@.take(k + 2)[k as int] == nums@[k as int]);
        }
        if ins >= 256 {
            proof {
                lemma_decoded_prefix_none(nums@, k + 2);
            }
            return None;
        }
        match Instruction::from(ins as u8, op) {
            Some(i) => {
                v.push(i);
            },
            None => {
                proof {
                    lemma_decoded_prefix_none(nums@, k + 2);
                }
                return None;
            },
        }
        k += 2;
    }
    proof {
        assert(nums@.take(n as int) =~= nums@);
    }
    Some(v)
}

proof fn lemma_decoded_odd(nums: Seq<u64>)
    requires
        nums.len() % 2 != 0,
    ensures
        decoded_spec(nums) is None,
    decreases nums.len(),
{
    if nums.len() > 1 {
        lemma_decoded_odd(nums.drop_last().drop_last());
    }
}

/// Once a prefix of even length fails to decode, the whole list does.
proof fn lemma_decoded_prefix_none(nums: Seq<u64>, k: int)
    requires
        0 <= k <= nums.len(),
        k % 2 == 0,
        nums.len() % 2 == 0,
        decoded_spec(nums.take(k)) is None,
    ensures
        decoded_spec(nums) is None,
    decreases nums.len() - k,
{
    if k < nums.len() {
        assert(nums.take(k + 2).drop_last().drop_last() =~= nums.take(k));
        lemma_decoded_prefix_none(nums, k + 2);
    } else {
        assert(nums.take(k) =~= nums);
    }
}

/// The step budget both parts give the machine.
pub open spec fn fuel_spec() -> nat {
    1000000
}

pub open spec fn part_one_spec(s: Seq<u8>) -> Option<Seq<char>> {
    match parsed_spec(s) {
        Some(p) => match decoded_spec(p.1) {
            Some(prog) => match run_spec(prog, p.0, 0, 0, 0, fuel_spec()) {
                Some(out) => Some(render(out)),
                None => None,
            },
            None => None,
        },
        None => None,
    }
}

/// Run the parsed program on register A and print its output, with a
/// step budget of one million.
pub fn part_one(input: &str) -> (r: Option<String>)
    ensures
        match r {
            Some(out) => input.is_ascii() && part_one_spec(ascii_bytes(input@)) == Some(out@),
            None => !input.is_ascii() || part_one_spec(ascii_bytes(input@)) is None,
        },
{
    let (a, nums) = match parse(input) {
        Some(p) => p,
        None => {
            return None;
        },
    };
    let prog = match decode_program(&nums) {
        Some(p) => p,
        None => {
            return None;
        },
    };
    let out = match run(&prog, a, 1000000) {
        Some(o) => o,
        None => {
            return None;
        },
    };
    proof {
        lemma_run_small(prog@, a, 0, 0, 0, fuel_spec());
    }
    Some(render_exec(&out))
}

/// Powers of eight: the step the search raises register A by at output
/// position `k`.
pub open spec fn pow8(k: nat) -> int
    decreases k,
{
    if k == 0 {
        1
    } else {
        8 * pow8((k - 1) as nat)
    }
}

/// The probe budget of the quine search.
pub open spec fn search_budget() -> nat {
    10000000
}

/// The digit-wise quine search, one machine run per budget unit.  While
/// `i` names an output position, raise register A by `8^i` until the
/// output matches the program there, then move one position down; past
/// the last position, scan upward by one.  `None` when a run fails, a
/// candidate leaves `u64`, or the budget runs out.
pub open spec fn probe(
    prog: Seq<Instruction>,
    nums: Seq<u64>,
    a: u64,
    i: int,
    budget: nat,
) -> Option<u64>
    decreases budget,
{
    if budget == 0 {
        None
    } else {
        match run_spec(prog, a, 0, 0, 0, fuel_spec()) {
            None => None,
            Some(out) => {
                if i >= 0 {
                    if i < out.len() && out[i] == nums[i] {
                        probe(prog, nums, a, i - 1, (budget - 1) as nat)
                    } else if a + pow8(i as nat) <= u64::MAX {
                        probe(prog, nums, (a + pow8(i as nat)) as u64, i, (budget - 1) as nat)
                    } else {
                        None
                    }
                } else {
                    if out == nums {
                        Some(a)
                    } else if a + 1 <= u64::MAX {
                        probe(prog, nums, (a + 1) as u64, i, (budget - 1) as nat)
                    } else {
                        None
                    }
                }
            },
        }
    }
}

/// What part two answers: the value the quine search finds, starting at
/// `8^(len-1)`, on a program of at most 21 words.
pub open spec fn part_two_spec(s: Seq<u8>) -> Option<u64> {
    match parsed_spec(s) {
        Some(p) => match decoded_spec(p.1) {
            Some(prog) => if p.1.len() == 0 || p.1.len() > 21 {
                None
            } else {
                probe(
                    prog,
                    p.1,
                    pow8((p.1.len() - 1) as nat) as u64,
                    p.1.len() - 1,
                    search_budget(),
                )
            },
            None => None,
        },
        None => None,
    }
}

/// Powers of eight up to the twentieth stay well inside `u64`.
proof fn lemma_pow8_le(k: nat)
    requires
        k <= 20,
    ensures
        1 <= pow8(k) <= 0x1000_0000_0000_0000,
    decreases k,
{
    reveal_with_fuel(pow8, 21);
    if k > 0 {
        lemma_pow8_le((k - 1) as nat);
        lemma_pow8_mono(k, 20);
    }
}

proof fn lemma_pow8_mono(a: nat, b: nat)
    requires
        a <= b,
        b <= 20,
    ensures
        pow8(a) <= pow8(b),
    decreases b,
{
    reveal_with_fuel(pow8, 21);
    if a < b {
        lemma_pow8_mono(a, (b - 1) as nat);
    }
}

/// Search for a register A value that makes the program output itself:
/// fix one output position at a time from the last down, then scan.  The
/// result is exactly what the budgeted `probe` search yields, and any
/// value returned provably reproduces the program.
pub fn part_two(input: &str) -> (r: Option<u64>)
    ensures
        r == if input.is_ascii() {
            part_two_spec(ascii_bytes(input@))
        } else {
            None::<u64>
        },
        match r {
            Some(v) => {
                &&& input.is_ascii()
                &&& parsed_spec(ascii_bytes(input@)) is Some
                &&& decoded_spec((parsed_spec(ascii_bytes(input@))->0).1) is Some
                &&& run_spec(
                    decoded_spec((parsed_spec(ascii_bytes(input@))->0).1)->0,
                    v,
                    0,
                    0,
                    0,
                    fuel_spec(),
                ) == Some((parsed_spec(ascii_bytes(input@))->0).1)
            },
            None => true,
        },
{
    let (_, nums) = match parse(input) {
        Some(p) => p,
        None => {
            return None;
        },
    };
    let prog = match decode_program(&nums) {
        Some(p) => p,
        None => {
            return None;
        },
    };
    let n = nums.len();
    if n == 0 || n > 21 {
        return None;
    }
    let ghost goal = part_two_spec(ascii_bytes(input@));
    let mut reg_a: u64 = 1;
    let mut k: usize = 0;
    proof {
        lemma_pow8_le((n - 1) as nat);
    }
    while k < n - 1
        invariant
            k <= n - 1,
            1 <= n <= 21,
            reg_a == pow8(k as nat),
            reg_a <= 0x1000_0000_0000_0000,
        decreases n - k,
    {
        proof {
            lemma_pow8_le((k + 1) as nat);
        }
        reg_a = reg_a * 8;
        k += 1;
    }
    let mut budget: u64 = 10000000;
    proof {
        assert(probe(prog@, nums@, reg_a, n - 1, budget as nat) == goal);
    }
    let mut i: usize = n;
    while i > 0
        invariant
            i <= n,
            1 <= n <= 21,
            n == nums@.len(),
            input.is_ascii(),
            goal == part_two_spec(ascii_bytes(input@)),
            probe(prog@, nums@, reg_a, i - 1, budget as nat) == goal,
        decreases i,
    {
        let pos = i - 1;
        // raise the digit at `pos` until the output matches there
        loop
            invariant_except_break
                probe(prog@, nums@, reg_a, pos as int, budget as nat) == goal,
            invariant
                pos < n,
                1 <= n <= 21,
                n == nums@.len(),
                input.is_ascii(),
                goal == part_two_spec(ascii_bytes(input@)),
            ensures
                probe(prog@, nums@, reg_a, pos as int - 1, budget as nat) == goal,
            decreases budget,
        {
            if budget == 0 {
                proof {
                    assert(goal is None);
                }
                return None;
            }
            let ghost budget0 = budget as nat;
            budget = budget - 1;
            let out = match run(&prog, reg_a, 1000000) {
                Some(o) => o,
                None => {
                    proof {
                        assert(run_spec(prog@, reg_a, 0, 0, 0, fuel_spec()) is None);
                        assert(goal is None);
                    }
                    return None;
                },
            };
            let matched = if pos < out.len() {
                out[pos] == nums[pos]
            } else {
                false
            };
            if matched {
                proof {
                    assert(probe(prog@, nums@, reg_a, pos as int, budget0) == probe(
                        prog@,
                        nums@,
                        reg_a,
                        pos as int - 1,
                        budget as nat,
                    ));
                }
                break;
            }
            let mut step: u64 = 1;
            let mut t: usize = 0;
            proof {
                lemma_pow8_le(pos as nat);
            }
            while t < pos
                invariant
                    t <= pos < 21,
                    step == pow8(t as nat),
                    step <= 0x1000_0000_0000_0000,
                decreases pos - t,
            {
                proof {
                    lemma_pow8_le((t + 1) as nat);
                }
                step = step * 8;
                t += 1;
            }
            match reg_a.checked_add(step) {
                Some(v) => {
                    proof {
                        assert(probe(prog@, nums@, reg_a, pos as int, budget0) == probe(
                            prog@,
                            nums@,
                            v,
                            pos as int,
                            budget as nat,
                        ));
                    }
                    reg_a = v;
                },
                None => {
                    proof {
                        assert(reg_a + pow8(pos as nat) > u64::MAX);
                        assert(goal is None);
                    }
                    return None;
                },
            }
        }
        i = pos;
    }
    // scan upward until the output equals the program exactly
    loop
        invariant
            n == nums@.len(),
            input.is_ascii(),
            goal == part_two_spec(ascii_bytes(input@)),
            parsed_spec(ascii_bytes(input@)) is Some,
            (parsed_spec(ascii_bytes(input@))->0).1 == nums@,
            decoded_spec(nums@) == Some(prog@),
            probe(prog@, nums@, reg_a, -1, budget as nat) == goal,
        ensures
            goal is None,
        decreases budget,
    {
        if budget == 0 {
            proof {
                assert(goal is None);
            }
            break;
        }
        let ghost budget0 = budget as nat;
        budget = budget - 1;
        let out = match run(&prog, reg_a, 1000000) {
            Some(o) => o,
            None => {
                proof {
                    assert(run_spec(prog@, reg_a, 0, 0, 0, fuel_spec()) is None);
                    assert(goal is None);
                }
                return None;
            },
        };
        let mut equal = out.len() == nums.len();
        let mut q: usize = 0;
        while q < out.len() && q < nums.len()
            invariant
                q <= out@.len(),
                q <= nums@.len(),
                equal ==> out@.len() == nums@.len(),
                equal ==> forall|t: int| 0 <= t < q ==> out@[t] == nums@[t],
                !equal ==> out@ != nums@,
            decreases out@.len() - q,
        {
            if out[q] != nums[q] {
                proof {
                    if out@.len() == nums@.len() {
                        assert(out@[q as int] != nums@[q as int]);
                    }
                }
                equal = false;
            }
            q += 1;
        }
        if equal {
            proof {
                assert(out@ =~= nums@);
                assert(probe(prog@, nums@, reg_a, -1, budget0) == Some(reg_a));
            }
            return Some(reg_a);
        }
        proof {
            assert(out@ != nums@);
        }
        match reg_a.checked_add(1) {
            Some(v) => {
                proof {
                    assert(probe(prog@, nums@, reg_a, -1, budget0) == probe(
                        prog@,
                        nums@,
                        v,
                        -1,
                        budget as nat,
                    ));
                }
                reg_a = v;
            },
            None => {
                proof {
                    assert(goal is None);
                }
                return None;
            },
        }
    }
    None
}

} // verus!