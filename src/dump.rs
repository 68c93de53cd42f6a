use vstd::prelude::*;
use crate::instruction::Instruction;

verus! {

/// The ASCII decimal digits of `n`, most significant first.
pub open spec fn decimal(n: nat) -> Seq<u8>
    decreases n,
{
    if n < 10 {
        seq![(48 + n) as u8]
    } else {
        decimal(n / 10).push((48 + n % 10) as u8)
    }
}

/// The listing line of instruction `ins` at index `k`: the index, a colon,
/// the instruction's character, and for a jump an arrow to its target.
pub open spec fn line(k: nat, ins: Instruction) -> Seq<u8> {
    let head = decimal(k) + seq![58u8, 32u8, ins.symbol() as u8];
    let tail = match ins {
        Instruction::JumpIfZero(t) => seq![32u8, 45u8, 62u8, 32u8] + decimal(t as nat),
        Instruction::JumpIfNonZero(t) => seq![32u8, 45u8, 62u8, 32u8] + decimal(t as nat),
        _ => Seq::<u8>::empty(),
    };
    head + tail + seq![10u8]
}

/// The listing of the first `n` instructions of `p`, one line each.
pub open spec fn listing(p: Seq<Instruction>, n: nat) -> Seq<u8>
    decreases n,
{
    if n == 0 || n > p.len() {
        Seq::<u8>::empty()
    } else {
        listing(p, (n - 1) as nat) + line((n - 1) as nat, p[n - 1])
    }
}

fn push_decimal(out: &mut Vec<u8>, n: usize)
    ensures
        final(out)@ == old(out)@ + decimal(n as nat),
    decreases n,
{
    if n < 10 {
        out.push((48 + n) as u8);
    } else {
        push_decimal(out, n / 10);
        out.push((48 + n % 10) as u8);
    }
    assert(final(out)@ =~= old(out)@ + decimal(n as nat));
}

fn symbol_byte(ins: Instruction) -> (r: u8)
    ensures
        r == ins.symbol() as u8,
{
    match ins {
        Instruction::MoveRight => 62,
        Instruction::MoveLeft => 60,
        Instruction::Increment => 43,
        Instruction::Decrement => 45,
        Instruction::Output => 46,
        Instruction::Input => 44,
        Instruction::JumpIfZero(_) => 91,
        Instruction::JumpIfNonZero(_) => 93,
    }
}

/// A human-readable listing of `program`: one line per instruction, with
/// each jump's resolved target index.
pub fn dump_text(program: &Vec<Instruction>) -> (r: Vec<u8>)
    ensures
        r@ == listing(program@, program@.len()),
{
    let mut out: Vec<u8> = Vec::new();
    let mut k: usize = 0;
    while k < program.len()
        invariant
            k <= program@.len(),
            out@ == listing(program@, k as nat),
        decreases program@.len() - k,
    {
        let ghost start = out@;
        let ins = program[k];
        push_decimal(&mut out, k);
        out.push(58);
        out.push(32);
        out.push(symbol_byte(ins));
        let ghost mid = out@;
        match ins {
            Instruction::JumpIfZero(t) | Instruction::JumpIfNonZero(t) => {
                out.push(32);
                out.push(45);
                out.push(62);
                out.push(32);
                push_decimal(&mut out, t);
            },
            _ => {},
        }
        out.push(10);
        proof {
            let head = decimal(k as nat) + seq![58u8, 32u8, ins.symbol() as u8];
            assert(mid =~= start + head);
            assert(out@ =~= start + line(k as nat, ins));
            assert(listing(program@, (k + 1) as nat) == listing(program@, k as nat) + line(
                k as nat,
                program@[k as int],
            ));
        }
        k = k + 1;
    }
    out
}

} // verus!
