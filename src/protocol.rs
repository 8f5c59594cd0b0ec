use vstd::prelude::*;
use crate::convert::sign_extend_24;
use crate::mode::Mode;

verus! {

/// How long the clock line stays at each level of a pulse, in microseconds.
pub const CLOCK_HOLD_US: u32 = 1;

/// How long the data line is left to settle after it signals a ready
/// conversion, in microseconds.
pub const SETTLE_US: u32 = 1;

/// How long the clock line must stay high to power the chip down, in
/// microseconds.
pub const POWER_DOWN_US: u32 = 60;

/// One operation that the driver performs on its lines or its delay provider.
#[derive(Copy, Clone, Debug, PartialEq, Eq, Structural)]
pub enum LineOp {
    /// The clock line was driven high.
    ClockHigh,
    /// The clock line was driven low.
    ClockLow,
    /// The data line was read, with the level seen (`true` for high).
    Read(bool),
    /// The driver waited for the given number of microseconds.
    Wait(u32),
}

/// Readiness check that found a conversion ready, then the settle delay.
pub open spec fn ready_ops() -> Seq<LineOp> {
    seq![LineOp::ClockLow, LineOp::Read(false), LineOp::Wait(SETTLE_US)]
}

/// Readiness check that found no conversion ready.
pub open spec fn not_ready_ops() -> Seq<LineOp> {
    seq![LineOp::ClockLow, LineOp::Read(true)]
}

/// One clock pulse that shifts out a data bit, sampled while the clock is high.
pub open spec fn bit_ops(b: bool) -> Seq<LineOp> {
    seq![
        LineOp::ClockHigh,
        LineOp::Wait(CLOCK_HOLD_US),
        LineOp::Read(b),
        LineOp::ClockLow,
        LineOp::Wait(CLOCK_HOLD_US),
    ]
}

/// One clock pulse with no sampling.
pub open spec fn pulse_ops() -> Seq<LineOp> {
    seq![
        LineOp::ClockHigh,
        LineOp::Wait(CLOCK_HOLD_US),
        LineOp::ClockLow,
        LineOp::Wait(CLOCK_HOLD_US),
    ]
}

/// The pulses that shift out `bits`, first bit first.
pub open spec fn shift_ops(bits: Seq<bool>) -> Seq<LineOp>
    decreases bits.len(),
{
    if bits.len() == 0 {
        seq![]
    } else {
        shift_ops(bits.drop_last()) + bit_ops(bits.last())
    }
}

/// `n` pulses with no sampling.
pub open spec fn trailing_ops(n: nat) -> Seq<LineOp>
    decreases n,
{
    if n == 0 {
        seq![]
    } else {
        trailing_ops((n - 1) as nat) + pulse_ops()
    }
}

/// A complete read of the sample `bits` in `mode`: readiness check, 24 data
/// pulses and the trailing pulses that select `mode` for the next conversion.
pub open spec fn retrieve_ops(mode: Mode, bits: Seq<bool>) -> Seq<LineOp> {
    ready_ops() + shift_ops(bits) + trailing_ops(mode.spec_pulses())
}

/// Power-down: clock high, held long enough for the chip to sleep.
pub open spec fn power_down_ops() -> Seq<LineOp> {
    seq![LineOp::ClockHigh, LineOp::Wait(POWER_DOWN_US)]
}

/// Reset: clock high, two reads of the data line while it stays high, clock low.
pub open spec fn reset_ops(a: bool, b: bool) -> Seq<LineOp> {
    seq![LineOp::ClockHigh, LineOp::Read(a), LineOp::Read(b), LineOp::ClockLow]
}

/// `ops` is a complete reset.
pub open spec fn reset_complete(ops: Seq<LineOp>) -> bool {
    exists|a: bool, b: bool| ops == #[trigger] reset_ops(a, b)
}

/// `ops` is what was done of some reset before its next operation,
/// `failed`, failed.
pub open spec fn reset_cut_short(ops: Seq<LineOp>, failed: LineOp) -> bool {
    exists|a: bool, b: bool|
        #[trigger] cut_short(ops, reset_ops(a, b)) && reset_ops(a, b)[ops.len() as int] == failed
}

/// `ops` is what was done of `full` before a fault stopped it.
pub open spec fn cut_short(ops: Seq<LineOp>, full: Seq<LineOp>) -> bool {
    ops.len() < full.len() && ops =~= full.subrange(0, ops.len() as int)
}

/// `ops` is what was done of some complete read in `mode` before its next
/// operation, `failed`, failed.
pub open spec fn retrieve_cut_short(mode: Mode, ops: Seq<LineOp>, failed: LineOp) -> bool {
    exists|bits: Seq<bool>|
        bits.len() == 24 && #[trigger] cut_short(ops, retrieve_ops(mode, bits)) && retrieve_ops(
            mode,
            bits,
        )[ops.len() as int] == failed
}

/// The calls on the clock line that `ops` stands for, each one successful.
pub open spec fn clock_calls<E>(ops: Seq<LineOp>) -> Seq<(bool, Result<(), E>)>
    decreases ops.len(),
{
    if ops.len() == 0 {
        seq![]
    } else {
        match ops.last() {
            LineOp::ClockHigh => clock_calls(ops.drop_last()).push((true, Ok(()))),
            LineOp::ClockLow => clock_calls(ops.drop_last()).push((false, Ok(()))),
            _ => clock_calls(ops.drop_last()),
        }
    }
}

/// The reads of the data line that `ops` stands for, each one successful.
pub open spec fn data_calls<E>(ops: Seq<LineOp>) -> Seq<Result<bool, E>>
    decreases ops.len(),
{
    if ops.len() == 0 {
        seq![]
    } else {
        match ops.last() {
            LineOp::Read(b) => data_calls(ops.drop_last()).push(Ok(b)),
            _ => data_calls(ops.drop_last()),
        }
    }
}

/// The delays that `ops` stands for.
pub open spec fn delay_calls(ops: Seq<LineOp>) -> Seq<u32>
    decreases ops.len(),
{
    if ops.len() == 0 {
        seq![]
    } else {
        match ops.last() {
            LineOp::Wait(us) => delay_calls(ops.drop_last()).push(us),
            _ => delay_calls(ops.drop_last()),
        }
    }
}

pub(crate) proof fn lemma_calls_push<E>(ops: Seq<LineOp>, x: LineOp)
    ensures
        clock_calls::<E>(ops.push(x)) == match x {
            LineOp::ClockHigh => clock_calls::<E>(ops).push((true, Ok(()))),
            LineOp::ClockLow => clock_calls::<E>(ops).push((false, Ok(()))),
            _ => clock_calls::<E>(ops),
        },
        data_calls::<E>(ops.push(x)) == match x {
            LineOp::Read(b) => data_calls::<E>(ops).push(Ok(b)),
            _ => data_calls::<E>(ops),
        },
        delay_calls(ops.push(x)) == match x {
            LineOp::Wait(us) => delay_calls(ops).push(us),
            _ => delay_calls(ops),
        },
{
    assert(ops.push(x).drop_last() =~= ops);
}

/// The number read from `bits`, most significant bit first.
pub open spec fn bits_value(bits: Seq<bool>) -> nat
    decreases bits.len(),
{
    if bits.len() == 0 {
        0
    } else {
        2 * bits_value(bits.drop_last()) + if bits.last() {
            1nat
        } else {
            0nat
        }
    }
}

/// `2` to the power `n`.
pub open spec fn two_pow(n: nat) -> nat
    decreases n,
{
    if n == 0 {
        1
    } else {
        2 * two_pow((n - 1) as nat)
    }
}

/// The number of times `ops` drives the clock high.
pub open spec fn rising_edges(ops: Seq<LineOp>) -> nat
    decreases ops.len(),
{
    if ops.len() == 0 {
        0
    } else {
        rising_edges(ops.drop_last()) + if ops.last() == LineOp::ClockHigh {
            1nat
        } else {
            0nat
        }
    }
}

/// The level that `ops` last drove the clock to, if it drove it at all.
pub open spec fn clock_level(ops: Seq<LineOp>) -> Option<bool>
    decreases ops.len(),
{
    if ops.len() == 0 {
        None
    } else {
        match ops.last() {
            LineOp::ClockHigh => Some(true),
            LineOp::ClockLow => Some(false),
            _ => clock_level(ops.drop_last()),
        }
    }
}


/// `ops` is a complete read in `mode` that yields the sample `v`.
pub open spec fn read_complete(mode: Mode, ops: Seq<LineOp>, v: int) -> bool {
    exists|bits: Seq<bool>|
        bits.len() == 24 && ops == #[trigger] retrieve_ops(mode, bits) && v == sign_extend_24(
            bits_value(bits) as int,
        )
}

/// The operations appended to the record `before` to give the record `after`.
pub open spec fn added(before: Seq<LineOp>, after: Seq<LineOp>) -> Seq<LineOp> {
    after.subrange(before.len() as int, after.len() as int)
}

proof fn lemma_rising_edges_push(s: Seq<LineOp>, x: LineOp)
    ensures
        rising_edges(s.push(x)) == rising_edges(s) + if x == LineOp::ClockHigh {
            1nat
        } else {
            0nat
        },
{
    assert(s.push(x).drop_last() =~= s);
}

proof fn lemma_rising_edges_append(a: Seq<LineOp>, b: Seq<LineOp>)
    ensures
        rising_edges(a + b) == rising_edges(a) + rising_edges(b),
    decreases b.len(),
{
    if b.len() == 0 {
        assert(a + b =~= a);
    } else {
        lemma_rising_edges_append(a, b.drop_last());
        assert((a + b).drop_last() =~= a + b.drop_last());
    }
}

pub(crate) proof fn lemma_shift_ops_push(bits: Seq<bool>, b: bool)
    ensures
        shift_ops(bits.push(b)) == shift_ops(bits) + bit_ops(b),
        bits_value(bits.push(b)) == 2 * bits_value(bits) + if b {
            1nat
        } else {
            0nat
        },
{
    assert(bits.push(b).drop_last() =~= bits);
}

proof fn lemma_shift_ops_append(a: Seq<bool>, c: Seq<bool>)
    ensures
        shift_ops(a + c) == shift_ops(a) + shift_ops(c),
    decreases c.len(),
{
    if c.len() == 0 {
        assert(a + c =~= a);
        assert(shift_ops(a) + shift_ops(c) =~= shift_ops(a));
    } else {
        lemma_shift_ops_append(a, c.drop_last());
        assert((a + c).drop_last() =~= a + c.drop_last());
        assert(shift_ops(a + c) =~= shift_ops(a) + shift_ops(c));
    }
}

proof fn lemma_rising_edges_single_pulses(b: bool)
    ensures
        rising_edges(bit_ops(b)) == 1,
        rising_edges(pulse_ops()) == 1,
        rising_edges(ready_ops()) == 0,
{
    let s = Seq::<LineOp>::empty();
    let h = LineOp::ClockHigh;
    let l = LineOp::ClockLow;
    let w = LineOp::Wait(CLOCK_HOLD_US);
    let r = LineOp::Read(b);
    assert(bit_ops(b) =~= s.push(h).push(w).push(r).push(l).push(w));
    lemma_rising_edges_push(s, h);
    lemma_rising_edges_push(s.push(h), w);
    lemma_rising_edges_push(s.push(h).push(w), r);
    lemma_rising_edges_push(s.push(h).push(w).push(r), l);
    lemma_rising_edges_push(s.push(h).push(w).push(r).push(l), w);
    assert(pulse_ops() =~= s.push(h).push(w).push(l).push(w));
    lemma_rising_edges_push(s.push(h).push(w), l);
    lemma_rising_edges_push(s.push(h).push(w).push(l), w);
    let z = LineOp::Read(false);
    let st = LineOp::Wait(SETTLE_US);
    assert(ready_ops() =~= s.push(l).push(z).push(st));
    lemma_rising_edges_push(s, l);
    lemma_rising_edges_push(s.push(l), z);
    lemma_rising_edges_push(s.push(l).push(z), st);
}

proof fn lemma_shift_ops_facts(bits: Seq<bool>)
    ensures
        shift_ops(bits).len() == 5 * bits.len(),
        rising_edges(shift_ops(bits)) == bits.len(),
    decreases bits.len(),
{
    if bits.len() > 0 {
        let b = bits.last();
        lemma_shift_ops_facts(bits.drop_last());
        lemma_rising_edges_append(shift_ops(bits.drop_last()), bit_ops(b));
        lemma_rising_edges_single_pulses(b);
    }
}

proof fn lemma_trailing_ops_facts(n: nat)
    ensures
        trailing_ops(n).len() == 4 * n,
        rising_edges(trailing_ops(n)) == n,
    decreases n,
{
    if n > 0 {
        lemma_trailing_ops_facts((n - 1) as nat);
        lemma_rising_edges_append(trailing_ops((n - 1) as nat), pulse_ops());
        lemma_rising_edges_single_pulses(false);
    }
}

proof fn lemma_trailing_ops_append(a: nat, b: nat)
    ensures
        trailing_ops(a + b) == trailing_ops(a) + trailing_ops(b),
    decreases b,
{
    if b == 0 {
        assert(trailing_ops(a) + trailing_ops(b) =~= trailing_ops(a));
    } else {
        lemma_trailing_ops_append(a, (b - 1) as nat);
        assert(trailing_ops(a + b) =~= trailing_ops(a) + trailing_ops(b));
    }
}

proof fn lemma_two_pow_monotonic(a: nat, b: nat)
    requires
        a <= b,
    ensures
        two_pow(a) <= two_pow(b),
    decreases b,
{
    if a < b {
        lemma_two_pow_monotonic(a, (b - 1) as nat);
    }
}

/// The bound that keeps the 24-bit accumulator within an `i32`.
pub(crate) proof fn lemma_accumulator_bound(bits: Seq<bool>)
    requires
        bits.len() <= 24,
    ensures
        bits_value(bits) < two_pow(bits.len()),
        two_pow(bits.len()) <= 0x1000000,
    decreases bits.len(),
{
    if bits.len() > 0 {
        lemma_accumulator_bound(bits.drop_last());
    }
    lemma_two_pow_monotonic(bits.len(), 24);
    assert(two_pow(24) == 0x1000000) by {
        reveal_with_fuel(two_pow, 25);
    }
}

/// A complete read in `mode` drives the clock high `24 + mode.spec_pulses()`
/// times, and leaves it low.
pub proof fn lemma_retrieve_ops_pulses(mode: Mode, bits: Seq<bool>, before: Seq<LineOp>)
    requires
        bits.len() == 24,
    ensures
        rising_edges(retrieve_ops(mode, bits)) == 24 + mode.spec_pulses(),
        clock_level(before + retrieve_ops(mode, bits)) == Some(false),
        retrieve_ops(mode, bits).len() == 3 + 5 * 24 + 4 * mode.spec_pulses(),
        retrieve_ops(mode, bits)[1] == LineOp::Read(false),
{
    let n = mode.spec_pulses();
    lemma_shift_ops_facts(bits);
    lemma_trailing_ops_facts(n);
    lemma_rising_edges_append(ready_ops(), shift_ops(bits));
    lemma_rising_edges_append(ready_ops() + shift_ops(bits), trailing_ops(n));
    lemma_rising_edges_single_pulses(false);
    let all = before + retrieve_ops(mode, bits);
    let pre = before + ready_ops() + shift_ops(bits) + trailing_ops((n - 1) as nat);
    assert(all =~= pre.push(LineOp::ClockHigh).push(LineOp::Wait(CLOCK_HOLD_US)).push(
        LineOp::ClockLow,
    ).push(LineOp::Wait(CLOCK_HOLD_US)));
    let low = pre.push(LineOp::ClockHigh).push(LineOp::Wait(CLOCK_HOLD_US)).push(LineOp::ClockLow);
    assert(all.drop_last() =~= low);
    assert(all.last() == LineOp::Wait(CLOCK_HOLD_US));
    assert(low.last() == LineOp::ClockLow);
    assert(clock_level(low) == Some(false));
}

/// A fault during the readiness check leaves a cut-short read.
pub(crate) proof fn lemma_fault_in_check(mode: Mode, p: Seq<LineOp>)
    requires
        p.len() < 2,
        p =~= ready_ops().subrange(0, p.len() as int),
    ensures
        retrieve_cut_short(mode, p, ready_ops()[p.len() as int]),
        p.len() < 2,
{
    let w = Seq::new(24, |k: int| false);
    lemma_retrieve_ops_pulses(mode, w, seq![]);
    assert(cut_short(p, retrieve_ops(mode, w)));
    assert(retrieve_ops(mode, w)[p.len() as int] == ready_ops()[p.len() as int]);
}

/// A fault inside the pulse that shifts out bit `b`, after the bits `bits`.
pub(crate) proof fn lemma_fault_in_shift(mode: Mode, bits: Seq<bool>, b: bool, p: Seq<LineOp>)
    requires
        bits.len() < 24,
        p.len() < 5,
        p =~= bit_ops(b).subrange(0, p.len() as int),
    ensures
        retrieve_cut_short(mode, ready_ops() + shift_ops(bits) + p, bit_ops(b)[p.len() as int]),
        (ready_ops() + shift_ops(bits) + p)[1] == LineOp::Read(false),
{
    let rest = Seq::new((23 - bits.len()) as nat, |k: int| false);
    let w = bits.push(b) + rest;
    lemma_shift_ops_append(bits.push(b), rest);
    lemma_shift_ops_push(bits, b);
    lemma_retrieve_ops_pulses(mode, w, seq![]);
    let full = retrieve_ops(mode, w);
    let ops = ready_ops() + shift_ops(bits) + p;
    assert(full =~= ready_ops() + shift_ops(bits) + bit_ops(b) + shift_ops(rest) + trailing_ops(
        mode.spec_pulses(),
    ));
    assert(ops =~= full.subrange(0, ops.len() as int));
    assert(cut_short(ops, full));
    assert(full[ops.len() as int] == bit_ops(b)[p.len() as int]);
}

/// A fault inside trailing pulse number `k`, after all 24 bits were read.
pub(crate) proof fn lemma_fault_in_trailing(mode: Mode, bits: Seq<bool>, k: nat, p: Seq<LineOp>)
    requires
        bits.len() == 24,
        k < mode.spec_pulses(),
        p.len() < 4,
        p =~= pulse_ops().subrange(0, p.len() as int),
    ensures
        retrieve_cut_short(
            mode,
            ready_ops() + shift_ops(bits) + trailing_ops(k) + p,
            pulse_ops()[p.len() as int],
        ),
        (ready_ops() + shift_ops(bits) + trailing_ops(k) + p)[1] == LineOp::Read(false),
{
    let n = mode.spec_pulses();
    lemma_trailing_ops_append(k + 1, (n - k - 1) as nat);
    assert(k + 1 + (n - k - 1) as nat == n);
    lemma_retrieve_ops_pulses(mode, bits, seq![]);
    let full = retrieve_ops(mode, bits);
    let ops = ready_ops() + shift_ops(bits) + trailing_ops(k) + p;
    assert(full =~= ready_ops() + shift_ops(bits) + trailing_ops(k) + pulse_ops() + trailing_ops(
        (n - k - 1) as nat,
    ));
    assert(ops =~= full.subrange(0, ops.len() as int));
    assert(cut_short(ops, full));
    assert(full[ops.len() as int] == pulse_ops()[p.len() as int]);
}

} // verus!
