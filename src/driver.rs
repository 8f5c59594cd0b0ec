use vstd::prelude::*;
use crate::convert::i24_to_i32;
use crate::line::{DelayUs, InputLine, OutputLine};
use crate::mode::Mode;
use crate::protocol::{
    added, bit_ops, bits_value, clock_level, cut_short, lemma_accumulator_bound,
    lemma_fault_in_check, lemma_fault_in_shift, lemma_fault_in_trailing,
    lemma_retrieve_ops_pulses, lemma_shift_ops_push, lemma_calls_push, clock_calls, data_calls,
    delay_calls, not_ready_ops, power_down_ops, pulse_ops,
    read_complete, ready_ops, reset_complete, reset_cut_short, reset_ops, retrieve_cut_short,
    retrieve_ops, rising_edges, shift_ops, trailing_ops, two_pow, LineOp, CLOCK_HOLD_US,
    POWER_DOWN_US, SETTLE_US,
};

verus! {

/// Relies on `nb::Error` as the nb crate declares it: two public variants,
/// `Other(E)` for a fault and `WouldBlock` for an operation that cannot
/// complete yet. The driver builds and returns these values.
#[verifier::external_type_specification]
#[verifier::reject_recursive_types(E)]
pub struct ExNbError<E>(nb::Error<E>);

/// HX711 driver.
///
/// It owns the data line (`dout`) and the clock line (`pd_sck`) and records,
/// in ghost state, every successful line operation and delay, in order. The
/// contracts tie that record to the models of the lines and of the delay
/// provider: each recorded operation is a call that the line or the delay
/// provider received, and a failed call is the last one made.
pub struct Hx711<IN, OUT> {
    dout: IN,
    pd_sck: OUT,
    mode: Mode,
    record: Ghost<Seq<LineOp>>,
}

impl<IN, OUT> Hx711<IN, OUT> {
    /// Every line operation and delay performed so far, oldest first.
    pub closed spec fn history(&self) -> Seq<LineOp> {
        self.record@
    }

    /// The mode that the next read selects for the conversion after it.
    pub closed spec fn spec_mode(&self) -> Mode {
        self.mode
    }

    /// The current mode.
    pub fn mode(&self) -> (r: Mode)
        ensures
            r == self.spec_mode(),
    {
        self.mode
    }

    /// The data line held by the driver.
    pub closed spec fn data_line(&self) -> IN {
        self.dout
    }

    /// The clock line held by the driver.
    pub closed spec fn clock_line(&self) -> OUT {
        self.pd_sck
    }

    /// Releases the two lines, data line first.
    pub fn destroy(self) -> (r: (IN, OUT))
        ensures
            r == (self.data_line(), self.clock_line()),
    {
        (self.dout, self.pd_sck)
    }
}

impl<IN, OUT, E> Hx711<IN, OUT> where IN: InputLine<Error = E>, OUT: OutputLine<Error = E> {
    /// The operations performed since the driver was in state `start`.
    pub open spec fn ops_since(self, start: Self) -> Seq<LineOp> {
        added(start.history(), self.history())
    }

    /// Since `start`, the clock and data lines received exactly the calls
    /// that `self.ops_since(start)` stands for, in that order, and each one
    /// succeeded.
    pub open spec fn calls_since(self, start: Self) -> bool {
        &&& start.history().is_prefix_of(self.history())
        &&& self.clock_line().driven() == start.clock_line().driven() + clock_calls::<E>(
            self.ops_since(start),
        )
        &&& self.data_line().seen() == start.data_line().seen() + data_calls::<E>(
            self.ops_since(start),
        )
    }

    /// Since `start`, the clock and data lines received the calls that
    /// `self.ops_since(start)` stands for, each one successful, then one call
    /// for `failed`, which returned the error `e`, and nothing after it.
    pub open spec fn calls_since_fault(self, start: Self, failed: LineOp, e: E) -> bool {
        let ops = self.ops_since(start);
        let driven = start.clock_line().driven() + clock_calls::<E>(ops);
        let seen = start.data_line().seen() + data_calls::<E>(ops);
        &&& start.history().is_prefix_of(self.history())
        &&& match failed {
            LineOp::ClockHigh => self.clock_line().driven() == driven.push((true, Err(e)))
                && self.data_line().seen() == seen,
            LineOp::ClockLow => self.clock_line().driven() == driven.push((false, Err(e)))
                && self.data_line().seen() == seen,
            LineOp::Read(_) => self.clock_line().driven() == driven && self.data_line().seen()
                == seen.push(Err(e)),
            LineOp::Wait(_) => false,
        }
    }

    /// Since `start`, the lines received the calls of a read in `mode` cut
    /// short by a call that failed with `e`, and nothing after that call.
    pub open spec fn retrieve_fault(self, start: Self, mode: Mode, e: E) -> bool {
        exists|failed: LineOp|
            #![trigger self.calls_since_fault(start, failed, e)]
            self.calls_since_fault(start, failed, e) && retrieve_cut_short(
                mode,
                self.ops_since(start),
                failed,
            )
    }

    /// Since `start`, the lines received the calls of a reset cut short by a
    /// call that failed with `e`, and nothing after that call.
    pub open spec fn reset_fault(self, start: Self, e: E) -> bool {
        exists|failed: LineOp|
            #![trigger self.calls_since_fault(start, failed, e)]
            self.calls_since_fault(start, failed, e) && reset_cut_short(self.ops_since(start), failed)
    }

    /// Creates a driver from the data line and the clock line, in mode
    /// `ChAGain128`, and drives the clock line low.
    ///
    /// A fault of that first write is not reported here: every read starts by
    /// driving the clock low again, and reports it then.
    pub fn new(dout: IN, pd_sck: OUT) -> (r: Self)
        ensures
            r.spec_mode() == Mode::ChAGain128,
            r.data_line() == dout,
            r.clock_line().driven().len() == pd_sck.driven().len() + 1,
            r.clock_line().driven().drop_last() == pd_sck.driven(),
            r.clock_line().driven().last().0 == false,
            r.clock_line().driven().last().1 is Ok ==> r.history() == seq![LineOp::ClockLow],
            r.clock_line().driven().last().1 is Err ==> r.history() == Seq::<LineOp>::empty(),
    {
        let ghost d0 = pd_sck.driven();
        let mut hx = Hx711 { dout, pd_sck, mode: Mode::ChAGain128, record: Ghost(Seq::empty()) };
        let r = hx.pd_sck.set_low();
        if r.is_ok() {
            proof {
                hx.record@ = seq![LineOp::ClockLow];
            }
        }
        assert(hx.pd_sck.driven().drop_last() =~= d0);
        hx
    }

    fn clock_high(&mut self, start: Ghost<Self>) -> (r: Result<(), E>)
        requires
            old(self).calls_since(start@),
        ensures
            final(self).mode == old(self).mode,
            delay_calls(final(self).ops_since(start@)) == delay_calls(old(self).ops_since(start@)),
            r is Ok ==> final(self).record@ == old(self).record@.push(LineOp::ClockHigh)
                && final(self).calls_since(start@),
            r matches Err(e) ==> final(self).record@ == old(self).record@ && final(self).calls_since_fault(start@, LineOp::ClockHigh, e),
    {
        let ghost ops = self.ops_since(start@);
        let r = self.pd_sck.set_high();
        match r {
            Ok(()) => {
                proof {
                    self.record@ = self.record@.push(LineOp::ClockHigh);
                    lemma_calls_push::<E>(ops, LineOp::ClockHigh);
                    assert(self.ops_since(start@) =~= ops.push(LineOp::ClockHigh));
                    assert(self.clock_line().driven() =~= start@.clock_line().driven() + clock_calls::<E>(
                        self.ops_since(start@),
                    ));
                }
                Ok(())
            },
            Err(e) => Err(e),
        }
    }

    fn clock_low(&mut self, start: Ghost<Self>) -> (r: Result<(), E>)
        requires
            old(self).calls_since(start@),
        ensures
            final(self).mode == old(self).mode,
            delay_calls(final(self).ops_since(start@)) == delay_calls(old(self).ops_since(start@)),
            r is Ok ==> final(self).record@ == old(self).record@.push(LineOp::ClockLow)
                && final(self).calls_since(start@),
            r matches Err(e) ==> final(self).record@ == old(self).record@ && final(self).calls_since_fault(start@, LineOp::ClockLow, e),
    {
        let ghost ops = self.ops_since(start@);
        let r = self.pd_sck.set_low();
        match r {
            Ok(()) => {
                proof {
                    self.record@ = self.record@.push(LineOp::ClockLow);
                    lemma_calls_push::<E>(ops, LineOp::ClockLow);
                    assert(self.ops_since(start@) =~= ops.push(LineOp::ClockLow));
                    assert(self.clock_line().driven() =~= start@.clock_line().driven() + clock_calls::<E>(
                        self.ops_since(start@),
                    ));
                }
                Ok(())
            },
            Err(e) => Err(e),
        }
    }

    fn read_data(&mut self, start: Ghost<Self>) -> (r: Result<bool, E>)
        requires
            old(self).calls_since(start@),
        ensures
            final(self).mode == old(self).mode,
            delay_calls(final(self).ops_since(start@)) == delay_calls(old(self).ops_since(start@)),
            r matches Ok(b) ==> final(self).record@ == old(self).record@.push(LineOp::Read(b))
                && final(self).calls_since(start@),
            r matches Err(e) ==> final(self).record@ == old(self).record@ && final(self).calls_since_fault(start@, LineOp::Read(false), e),
    {
        let ghost ops = self.ops_since(start@);
        let r = self.dout.is_high();
        match r {
            Ok(b) => {
                proof {
                    self.record@ = self.record@.push(LineOp::Read(b));
                    lemma_calls_push::<E>(ops, LineOp::Read(b));
                    assert(self.ops_since(start@) =~= ops.push(LineOp::Read(b)));
                    assert(self.data_line().seen() =~= start@.data_line().seen() + data_calls::<E>(
                        self.ops_since(start@),
                    ));
                }
                Ok(b)
            },
            Err(e) => Err(e),
        }
    }

    fn wait<D: DelayUs>(&mut self, delay: &mut D, us: u32, start: Ghost<Self>, w0: Ghost<Seq<u32>>)
        requires
            old(self).calls_since(start@),
            old(delay).waited() == w0@ + delay_calls(old(self).ops_since(start@)),
        ensures
            final(self).mode == old(self).mode,
            final(self).record@ == old(self).record@.push(LineOp::Wait(us)),
            final(self).calls_since(start@),
            final(delay).waited() == w0@ + delay_calls(final(self).ops_since(start@)),
    {
        let ghost ops = self.ops_since(start@);
        delay.delay_us(us);
        proof {
            self.record@ = self.record@.push(LineOp::Wait(us));
            lemma_calls_push::<E>(ops, LineOp::Wait(us));
            assert(self.ops_since(start@) =~= ops.push(LineOp::Wait(us)));
            assert(delay.waited() =~= w0@ + delay_calls(self.ops_since(start@)));
        }
    }

    proof fn lemma_calls_since_self(&self)
        ensures
            self.calls_since(*self),
            self.ops_since(*self) == Seq::<LineOp>::empty(),
    {
        assert(self.ops_since(*self) =~= Seq::<LineOp>::empty());
        assert(self.clock_line().driven() =~= self.clock_line().driven() + clock_calls::<E>(
            Seq::<LineOp>::empty(),
        ));
        assert(self.data_line().seen() =~= self.data_line().seen() + data_calls::<E>(
            Seq::<LineOp>::empty(),
        ));
    }

    /// Retrieves the latest conversion, if the chip has one ready.
    ///
    /// Drives the clock low and reads the data line. High means no conversion
    /// is ready: the result is `WouldBlock` and nothing else is done. Low
    /// means one is: after a settle delay, 24 clock pulses shift the sample
    /// out, most significant bit first, each bit read while the clock is
    /// high; then `mode.pulses()` more pulses select the mode of the next
    /// conversion. The sample is returned sign-extended. A line fault stops
    /// the operation at once and is returned as `Other`.
    #[verifier::rlimit(60)]
    pub fn retrieve<D: DelayUs>(&mut self, delay: &mut D) -> (r: nb::Result<i32, E>)
        ensures
            final(self).spec_mode() == old(self).spec_mode(),
            old(self).history().is_prefix_of(final(self).history()),
            r matches Ok(v) ==> read_complete(
                old(self).spec_mode(),
                added(old(self).history(), final(self).history()),
                v as int,
            ),
            r matches Err(nb::Error::WouldBlock) ==> added(old(self).history(), final(self).history())
                == not_ready_ops(),
            !(r matches Err(nb::Error::Other(_))) ==> final(self).calls_since(*old(self)),
            r matches Err(nb::Error::Other(e)) ==> final(self).retrieve_fault(
                *old(self),
                old(self).spec_mode(),
                e,
            ),
            final(delay).waited() == old(delay).waited() + delay_calls(
                final(self).ops_since(*old(self)),
            ),
            (r matches Err(nb::Error::WouldBlock)) <==> ({
                let ops = added(old(self).history(), final(self).history());
                ops.len() >= 2 && ops[1] == LineOp::Read(true)
            }),
            r is Ok ==> clock_level(final(self).history()) == Some(false),
            r is Ok ==> rising_edges(added(old(self).history(), final(self).history())) == 24
                + old(self).spec_mode().spec_pulses(),
    {
        let ghost h0 = self.record@;
        let ghost mode = self.mode;
        let ghost start = *self;
        let ghost w0 = delay.waited();
        proof {
            self.lemma_calls_since_self();
        }
        match self.clock_low(Ghost(start)) {
            Ok(()) => {},
            Err(e) => {
                proof {
                    assert(added(h0, self.record@) =~= seq![]);
                    lemma_fault_in_check(mode, seq![]);
                    assert(self.calls_since_fault(start, LineOp::ClockLow, e));
                    assert(retrieve_cut_short(mode, self.ops_since(start), LineOp::ClockLow));
                    assert(self.retrieve_fault(start, mode, e));
                }
                return Err(nb::Error::Other(e));
            },
        }
        let busy = match self.read_data(Ghost(start)) {
            Ok(b) => b,
            Err(e) => {
                proof {
                    assert(added(h0, self.record@) =~= seq![LineOp::ClockLow]);
                    lemma_fault_in_check(mode, seq![LineOp::ClockLow]);
                    assert(self.calls_since_fault(start, LineOp::Read(false), e));
                    assert(retrieve_cut_short(mode, self.ops_since(start), LineOp::Read(false)));
                    assert(self.retrieve_fault(start, mode, e));
                }
                return Err(nb::Error::Other(e));
            },
        };
        if busy {
            assert(added(h0, self.record@) =~= not_ready_ops());
            return Err(nb::Error::WouldBlock);
        }
        self.wait(delay, SETTLE_US, Ghost(start), Ghost(w0));
        assert(self.record@ =~= h0 + ready_ops() + shift_ops(seq![]));

        let mut count: i32 = 0;
        let mut i: usize = 0;
        let ghost mut bits: Seq<bool> = seq![];
        while i < 24
            invariant
                i <= 24,
                bits.len() == i,
                count == bits_value(bits),
                bits_value(bits) < two_pow(i as nat),
                two_pow(i as nat) <= 0x1000000,
                self.mode == mode,
                mode == old(self).mode,
                h0 == old(self).record@,
                start == *old(self),
                w0 == old(delay).waited(),
                self.calls_since(start),
                delay.waited() == w0 + delay_calls(self.ops_since(start)),
                self.record@ == h0 + ready_ops() + shift_ops(bits),
            decreases 24 - i,
        {
            let ghost pre = self.record@;
            match self.clock_high(Ghost(start)) {
                Ok(()) => {},
                Err(e) => {
                    proof {
                        assert(added(h0, self.record@) =~= ready_ops() + shift_ops(bits) + seq![]);
                        lemma_fault_in_shift(mode, bits, false, seq![]);
                        assert(self.calls_since_fault(start, LineOp::ClockHigh, e));
                        assert(retrieve_cut_short(mode, self.ops_since(start), LineOp::ClockHigh));
                        assert(self.retrieve_fault(start, mode, e));
                    }
                    return Err(nb::Error::Other(e));
                },
            }
            self.wait(delay, CLOCK_HOLD_US, Ghost(start), Ghost(w0));
            let b = match self.read_data(Ghost(start)) {
                Ok(b) => b,
                Err(e) => {
                    proof {
                        let p = seq![LineOp::ClockHigh, LineOp::Wait(CLOCK_HOLD_US)];
                        assert(added(h0, self.record@) =~= ready_ops() + shift_ops(bits) + p);
                        lemma_fault_in_shift(mode, bits, false, p);
                        assert(self.calls_since_fault(start, LineOp::Read(false), e));
                        assert(retrieve_cut_short(mode, self.ops_since(start), LineOp::Read(false)));
                        assert(self.retrieve_fault(start, mode, e));
                    }
                    return Err(nb::Error::Other(e));
                },
            };
            match self.clock_low(Ghost(start)) {
                Ok(()) => {},
                Err(e) => {
                    proof {
                        let p = seq![LineOp::ClockHigh, LineOp::Wait(CLOCK_HOLD_US), LineOp::Read(b)];
                        assert(added(h0, self.record@) =~= ready_ops() + shift_ops(bits) + p);
                        lemma_fault_in_shift(mode, bits, b, p);
                        assert(self.calls_since_fault(start, LineOp::ClockLow, e));
                        assert(retrieve_cut_short(mode, self.ops_since(start), LineOp::ClockLow));
                        assert(self.retrieve_fault(start, mode, e));
                    }
                    return Err(nb::Error::Other(e));
                },
            }
            self.wait(delay, CLOCK_HOLD_US, Ghost(start), Ghost(w0));
            proof {
                lemma_shift_ops_push(bits, b);
                lemma_accumulator_bound(bits.push(b));
                assert(self.record@ =~= pre + bit_ops(b));
                bits = bits.push(b);
                assert(self.record@ =~= h0 + ready_ops() + shift_ops(bits));
            }
            count = if b {
                count * 2 + 1
            } else {
                count * 2
            };
            i = i + 1;
        }

        let n = self.mode.pulses();
        let mut k: u16 = 0;
        while k < n
            invariant
                k <= n,
                n == mode.spec_pulses(),
                bits.len() == 24,
                self.mode == mode,
                mode == old(self).mode,
                h0 == old(self).record@,
                start == *old(self),
                w0 == old(delay).waited(),
                self.calls_since(start),
                delay.waited() == w0 + delay_calls(self.ops_since(start)),
                self.record@ == h0 + ready_ops() + shift_ops(bits) + trailing_ops(k as nat),
            decreases n - k,
        {
            let ghost pre = self.record@;
            match self.clock_high(Ghost(start)) {
                Ok(()) => {},
                Err(e) => {
                    proof {
                        assert(added(h0, self.record@) =~= ready_ops() + shift_ops(bits) + trailing_ops(
                            k as nat,
                        ) + seq![]);
                        lemma_fault_in_trailing(mode, bits, k as nat, seq![]);
                        assert(self.calls_since_fault(start, LineOp::ClockHigh, e));
                        assert(retrieve_cut_short(mode, self.ops_since(start), LineOp::ClockHigh));
                        assert(self.retrieve_fault(start, mode, e));
                    }
                    return Err(nb::Error::Other(e));
                },
            }
            self.wait(delay, CLOCK_HOLD_US, Ghost(start), Ghost(w0));
            match self.clock_low(Ghost(start)) {
                Ok(()) => {},
                Err(e) => {
                    proof {
                        let p = seq![LineOp::ClockHigh, LineOp::Wait(CLOCK_HOLD_US)];
                        assert(added(h0, self.record@) =~= ready_ops() + shift_ops(bits) + trailing_ops(
                            k as nat,
                        ) + p);
                        lemma_fault_in_trailing(mode, bits, k as nat, p);
                        assert(self.calls_since_fault(start, LineOp::ClockLow, e));
                        assert(retrieve_cut_short(mode, self.ops_since(start), LineOp::ClockLow));
                        assert(self.retrieve_fault(start, mode, e));
                    }
                    return Err(nb::Error::Other(e));
                },
            }
            self.wait(delay, CLOCK_HOLD_US, Ghost(start), Ghost(w0));
            assert(self.record@ =~= pre + pulse_ops());
            assert(self.record@ =~= h0 + ready_ops() + shift_ops(bits) + trailing_ops((k + 1) as nat));
            k = k + 1;
        }

        let v = i24_to_i32(count);
        proof {
            let ops = added(h0, self.record@);
            assert(ops =~= retrieve_ops(mode, bits));
            lemma_retrieve_ops_pulses(mode, bits, h0);
            assert(h0 + retrieve_ops(mode, bits) =~= self.record@);
            assert(read_complete(mode, ops, v as int));
        }
        Ok(v)
    }

    proof fn lemma_fault_same_start(self, a: Self, b: Self, mode: Mode)
        requires
            a.history() == b.history(),
            a.clock_line() == b.clock_line(),
            a.data_line() == b.data_line(),
        ensures
            forall|e: E|
                #![trigger self.retrieve_fault(a, mode, e)]
                self.retrieve_fault(a, mode, e) ==> self.retrieve_fault(b, mode, e),
    {
        assert forall|e: E|
            #![trigger self.retrieve_fault(a, mode, e)]
            self.retrieve_fault(a, mode, e) implies self.retrieve_fault(b, mode, e) by {
            let f = choose|f: LineOp|
                #![trigger self.calls_since_fault(a, f, e)]
                self.calls_since_fault(a, f, e) && retrieve_cut_short(mode, self.ops_since(a), f);
            assert(self.ops_since(a) == self.ops_since(b));
            assert(self.calls_since_fault(b, f, e));
        }
    }

    /// Sets the mode (channel and gain) of the conversions after the next one.
    ///
    /// Stores `mode`, then makes one read whose trailing pulses pass `mode` to
    /// the chip; the sample read is dropped. When no conversion is ready the
    /// result is `WouldBlock` with `mode` stored: calling again until another
    /// result comes completes the change.
    pub fn set_mode<D: DelayUs>(&mut self, mode: Mode, delay: &mut D) -> (r: nb::Result<(), E>)
        ensures
            final(self).spec_mode() == mode,
            old(self).history().is_prefix_of(final(self).history()),
            r is Ok ==> exists|v: int|
                read_complete(mode, added(old(self).history(), final(self).history()), v),
            r is Ok ==> rising_edges(added(old(self).history(), final(self).history())) == 24
                + mode.spec_pulses(),
            r is Ok ==> clock_level(final(self).history()) == Some(false),
            r matches Err(nb::Error::WouldBlock) ==> added(old(self).history(), final(self).history())
                == not_ready_ops(),
            !(r matches Err(nb::Error::Other(_))) ==> final(self).calls_since(*old(self)),
            r matches Err(nb::Error::Other(e)) ==> final(self).retrieve_fault(*old(self), mode, e),
            final(delay).waited() == old(delay).waited() + delay_calls(
                final(self).ops_since(*old(self)),
            ),
    {
        self.mode = mode;
        let ghost before = *self;
        let r = self.retrieve(delay);
        proof {
            self.lemma_fault_same_start(before, *old(self), mode);
        }
        match r {
            Ok(v) => {
                assert(read_complete(mode, added(old(self).history(), self.history()), v as int));
                Ok(())
            },
            Err(e) => Err(e),
        }
    }

    /// Resets the chip, which comes back in mode `ChAGain128`.
    ///
    /// Drives the clock high, reads the data line twice while it stays high,
    /// then drives the clock low. The recorded mode is left as it was.
    pub fn reset(&mut self) -> (r: Result<(), E>)
        ensures
            final(self).spec_mode() == old(self).spec_mode(),
            old(self).history().is_prefix_of(final(self).history()),
            r is Ok ==> reset_complete(added(old(self).history(), final(self).history())),
            r is Ok ==> clock_level(final(self).history()) == Some(false),
            r is Ok ==> final(self).calls_since(*old(self)),
            r matches Err(e) ==> final(self).reset_fault(*old(self), e),
    {
        let ghost h0 = self.record@;
        let ghost start = *self;
        proof {
            self.lemma_calls_since_self();
        }
        match self.clock_high(Ghost(start)) {
            Ok(()) => {},
            Err(e) => {
                assert(cut_short(added(h0, self.record@), reset_ops(false, false)));
                assert(self.calls_since_fault(start, LineOp::ClockHigh, e));
                assert(reset_cut_short(self.ops_since(start), LineOp::ClockHigh));
                assert(self.reset_fault(start, e));
                return Err(e);
            },
        }
        let a = match self.read_data(Ghost(start)) {
            Ok(a) => a,
            Err(e) => {
                assert(cut_short(added(h0, self.record@), reset_ops(false, false)));
                assert(self.calls_since_fault(start, LineOp::Read(false), e));
                assert(reset_cut_short(self.ops_since(start), LineOp::Read(false)));
                assert(self.reset_fault(start, e));
                return Err(e);
            },
        };
        let b = match self.read_data(Ghost(start)) {
            Ok(b) => b,
            Err(e) => {
                assert(cut_short(added(h0, self.record@), reset_ops(a, false)));
                assert(self.calls_since_fault(start, LineOp::Read(false), e));
                assert(reset_cut_short(self.ops_since(start), LineOp::Read(false)));
                assert(self.reset_fault(start, e));
                return Err(e);
            },
        };
        match self.clock_low(Ghost(start)) {
            Ok(()) => {},
            Err(e) => {
                assert(cut_short(added(h0, self.record@), reset_ops(a, b)));
                assert(self.calls_since_fault(start, LineOp::ClockLow, e));
                assert(reset_cut_short(self.ops_since(start), LineOp::ClockLow));
                assert(self.reset_fault(start, e));
                return Err(e);
            },
        }
        assert(added(h0, self.record@) =~= reset_ops(a, b));
        assert(self.record@.last() == LineOp::ClockLow);
        Ok(())
    }

    /// Powers the chip up (or keeps it running) by driving the clock low.
    pub fn enable(&mut self) -> (r: Result<(), E>)
        ensures
            final(self).spec_mode() == old(self).spec_mode(),
            old(self).history().is_prefix_of(final(self).history()),
            r is Ok ==> added(old(self).history(), final(self).history()) == seq![LineOp::ClockLow],
            r is Ok ==> final(self).calls_since(*old(self)),
            r is Err ==> final(self).history() == old(self).history(),
            r matches Err(e) ==> final(self).calls_since_fault(*old(self), LineOp::ClockLow, e),
    {
        let ghost h0 = self.record@;
        let ghost start = *self;
        proof {
            self.lemma_calls_since_self();
        }
        let r = self.clock_low(Ghost(start));
        assert(r is Ok ==> added(h0, self.record@) =~= seq![LineOp::ClockLow]);
        r
    }

    /// Powers the chip down: drives the clock high and holds it there for
    /// `POWER_DOWN_US` microseconds, after which the chip is asleep.
    pub fn disable<D: DelayUs>(&mut self, delay: &mut D) -> (r: Result<(), E>)
        ensures
            final(self).spec_mode() == old(self).spec_mode(),
            old(self).history().is_prefix_of(final(self).history()),
            r is Ok ==> added(old(self).history(), final(self).history()) == power_down_ops(),
            r is Ok ==> clock_level(final(self).history()) == Some(true),
            r is Ok ==> final(self).calls_since(*old(self)),
            r is Ok ==> final(delay).waited() == old(delay).waited().push(POWER_DOWN_US),
            r is Err ==> final(self).history() == old(self).history(),
            r matches Err(e) ==> final(self).calls_since_fault(*old(self), LineOp::ClockHigh, e),
            r is Err ==> final(delay).waited() == old(delay).waited(),
    {
        let ghost h0 = self.record@;
        let ghost start = *self;
        let ghost w0 = delay.waited();
        proof {
            self.lemma_calls_since_self();
            assert(delay.waited() =~= w0 + delay_calls(self.ops_since(start)));
        }
        match self.clock_high(Ghost(start)) {
            Ok(()) => {},
            Err(e) => {
                return Err(e);
            },
        }
        proof {
            lemma_calls_push::<E>(Seq::<LineOp>::empty(), LineOp::ClockHigh);
            assert(self.ops_since(start) =~= seq![LineOp::ClockHigh]);
        }
        self.wait(delay, POWER_DOWN_US, Ghost(start), Ghost(w0));
        proof {
            let all = self.record@;
            assert(added(h0, all) =~= power_down_ops());
            assert(self.ops_since(start) =~= seq![LineOp::ClockHigh].push(LineOp::Wait(POWER_DOWN_US)));
            lemma_calls_push::<E>(seq![LineOp::ClockHigh], LineOp::Wait(POWER_DOWN_US));
            assert(all.drop_last().last() == LineOp::ClockHigh);
            assert(clock_level(all.drop_last()) == Some(true));
        }
        Ok(())
    }
}

} // verus!
