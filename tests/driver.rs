use std::cell::RefCell;
use std::collections::VecDeque;
use std::rc::Rc;

use hx711::{DelayUs, Delays, Drives, Hx711, InputLine, Levels, Mode, OutputLine};

#[derive(Debug, Clone, Copy, PartialEq)]
enum Event {
    High,
    Low,
    Read(bool),
    Wait(u32),
}

#[derive(Debug, Clone, Copy, PartialEq)]
struct Fault;

type Log = Rc<RefCell<Vec<Event>>>;

struct Clock {
    log: Log,
    writes_before_fault: Option<usize>,
}

impl Clock {
    fn write(&mut self, e: Event) -> Result<(), Fault> {
        if let Some(n) = self.writes_before_fault {
            if n == 0 {
                return Err(Fault);
            }
            self.writes_before_fault = Some(n - 1);
        }
        self.log.borrow_mut().push(e);
        Ok(())
    }
}

// The line models (`driven`, `seen`, `waited`) are ghost state for the
// verifier; nothing calls them at run time. The fakes keep their own log.

impl OutputLine for Clock {
    type Error = Fault;

    fn driven(&self) -> Drives<Fault> {
        Drives::empty()
    }

    fn set_high(&mut self) -> Result<(), Fault> {
        self.write(Event::High)
    }

    fn set_low(&mut self) -> Result<(), Fault> {
        self.write(Event::Low)
    }
}

struct Data {
    log: Log,
    levels: VecDeque<bool>,
    fail_when_empty: bool,
}

impl InputLine for Data {
    type Error = Fault;

    fn seen(&self) -> Levels<Fault> {
        Levels::empty()
    }

    fn is_high(&mut self) -> Result<bool, Fault> {
        match self.levels.pop_front() {
            Some(b) => {
                self.log.borrow_mut().push(Event::Read(b));
                Ok(b)
            }
            None if self.fail_when_empty => Err(Fault),
            None => {
                self.log.borrow_mut().push(Event::Read(false));
                Ok(false)
            }
        }
    }
}

struct Delay {
    log: Log,
}

impl DelayUs for Delay {
    fn waited(&self) -> Delays {
        Delays::empty()
    }

    fn delay_us(&mut self, us: u32) {
        self.log.borrow_mut().push(Event::Wait(us));
    }
}

/// The levels the data line shows for one ready conversion holding `word`.
fn ready_then(word: u32) -> Vec<bool> {
    let mut v = vec![false];
    for i in (0..24).rev() {
        v.push((word >> i) & 1 == 1);
    }
    v
}

fn rig(levels: Vec<bool>) -> (Hx711<Data, Clock>, Delay, Log) {
    let log: Log = Rc::new(RefCell::new(Vec::new()));
    let data = Data { log: log.clone(), levels: levels.into(), fail_when_empty: false };
    let clock = Clock { log: log.clone(), writes_before_fault: None };
    let hx = Hx711::new(data, clock);
    let delay = Delay { log: log.clone() };
    (hx, delay, log)
}

fn count(log: &Log, e: Event) -> usize {
    log.borrow().iter().filter(|x| **x == e).count()
}

fn last_clock(log: &Log) -> Option<Event> {
    log.borrow().iter().rev().find(|e| **e == Event::High || **e == Event::Low).copied()
}

/// Number of high-then-low pairs on the clock line.
fn pairs(log: &Log) -> usize {
    let mut n = 0;
    let mut high = false;
    for e in log.borrow().iter() {
        match e {
            Event::High => high = true,
            Event::Low => {
                if high {
                    n += 1;
                }
                high = false;
            }
            _ => {}
        }
    }
    n
}

#[test]
fn new_starts_in_channel_a_with_clock_low() {
    let (hx, _delay, log) = rig(vec![]);
    assert_eq!(hx.mode(), Mode::ChAGain128);
    assert_eq!(*log.borrow(), vec![Event::Low]);
}

#[test]
fn mode_pulse_counts() {
    assert_eq!(Mode::ChAGain128.pulses(), 1);
    assert_eq!(Mode::ChBGain32.pulses(), 2);
    assert_eq!(Mode::ChBGain64.pulses(), 3);
}

#[test]
fn retrieve_would_block_when_data_line_high() {
    for mode in [Mode::ChAGain128, Mode::ChBGain32, Mode::ChBGain64] {
        let mut levels = ready_then(0);
        levels.push(true);
        let (mut hx, mut delay, log) = rig(levels);
        hx.set_mode(mode, &mut delay).unwrap();
        log.borrow_mut().clear();
        assert_eq!(hx.retrieve(&mut delay), Err(nb::Error::WouldBlock));
        assert_eq!(*log.borrow(), vec![Event::Low, Event::Read(true)]);
        assert_eq!(hx.mode(), mode);
    }
}

#[test]
fn retrieve_proceeds_when_data_line_low() {
    let (mut hx, mut delay, _log) = rig(ready_then(0x000005));
    assert_eq!(hx.retrieve(&mut delay), Ok(5));
}

#[test]
fn retrieve_leaves_clock_low() {
    let (mut hx, mut delay, log) = rig(ready_then(0x123456));
    assert_eq!(hx.retrieve(&mut delay), Ok(0x123456));
    assert_eq!(last_clock(&log), Some(Event::Low));
}

#[test]
fn retrieve_pulse_counts_per_mode() {
    for (mode, extra) in [(Mode::ChAGain128, 1), (Mode::ChBGain32, 2), (Mode::ChBGain64, 3)] {
        let mut levels = ready_then(0);
        levels.extend(ready_then(0x000001));
        let (mut hx, mut delay, log) = rig(levels);
        hx.set_mode(mode, &mut delay).unwrap();
        log.borrow_mut().clear();
        assert_eq!(hx.retrieve(&mut delay), Ok(1));
        assert_eq!(count(&log, Event::High), 24 + extra);
        assert_eq!(pairs(&log), 24 + extra);
    }
}

#[test]
fn retrieve_samples_with_clock_high_and_waits() {
    let (mut hx, mut delay, log) = rig(ready_then(0x800000));
    log.borrow_mut().clear();
    assert_eq!(hx.retrieve(&mut delay), Ok(-8388608));
    let log = log.borrow();
    assert_eq!(&log[..3], &[Event::Low, Event::Read(false), Event::Wait(1)]);
    assert_eq!(
        &log[3..8],
        &[Event::High, Event::Wait(1), Event::Read(true), Event::Low, Event::Wait(1)]
    );
    assert_eq!(log.len(), 3 + 5 * 24 + 4);
}

#[test]
fn retrieve_end_to_end_negative_thirteen() {
    let mut levels = ready_then(0);
    let bits = "111111111111111111110011";
    levels.push(false);
    levels.extend(bits.chars().map(|c| c == '1'));
    let (mut hx, mut delay, log) = rig(levels);
    hx.set_mode(Mode::ChBGain64, &mut delay).unwrap();
    log.borrow_mut().clear();
    assert_eq!(hx.retrieve(&mut delay), Ok(-13));
    assert_eq!(pairs(&log), 27);
    assert_eq!(count(&log, Event::High), 27);
}

#[test]
fn retrieve_reports_line_fault() {
    let log: Log = Rc::new(RefCell::new(Vec::new()));
    let data = Data { log: log.clone(), levels: vec![false].into(), fail_when_empty: true };
    let clock = Clock { log: log.clone(), writes_before_fault: None };
    let mut hx = Hx711::new(data, clock);
    let mut delay = Delay { log: log.clone() };
    log.borrow_mut().clear();
    assert_eq!(hx.retrieve(&mut delay), Err(nb::Error::Other(Fault)));
    assert_eq!(
        *log.borrow(),
        vec![Event::Low, Event::Read(false), Event::Wait(1), Event::High, Event::Wait(1)]
    );
}

#[test]
fn retrieve_stops_at_clock_fault() {
    let log: Log = Rc::new(RefCell::new(Vec::new()));
    let data = Data { log: log.clone(), levels: ready_then(7).into(), fail_when_empty: false };
    let clock = Clock { log: log.clone(), writes_before_fault: Some(1 + 1 + 2 * 24 + 1) };
    let mut hx = Hx711::new(data, clock);
    let mut delay = Delay { log: log.clone() };
    assert_eq!(hx.retrieve(&mut delay), Err(nb::Error::Other(Fault)));
    assert_eq!(count(&log, Event::High), 25);
    assert_eq!(count(&log, Event::Low), 1 + 1 + 24);
}

#[test]
fn set_mode_records_mode_and_reads_once() {
    let (mut hx, mut delay, log) = rig(ready_then(0x00ABCD));
    log.borrow_mut().clear();
    assert_eq!(hx.set_mode(Mode::ChBGain32, &mut delay), Ok(()));
    assert_eq!(hx.mode(), Mode::ChBGain32);
    assert_eq!(count(&log, Event::High), 26);
    assert_eq!(pairs(&log), 26);
}

#[test]
fn set_mode_would_block_keeps_new_mode() {
    let (mut hx, mut delay, log) = rig(vec![true]);
    log.borrow_mut().clear();
    assert_eq!(hx.set_mode(Mode::ChBGain64, &mut delay), Err(nb::Error::WouldBlock));
    assert_eq!(hx.mode(), Mode::ChBGain64);
    assert_eq!(*log.borrow(), vec![Event::Low, Event::Read(true)]);
}

#[test]
fn disable_holds_clock_high_for_sixty_microseconds() {
    let (mut hx, mut delay, log) = rig(vec![]);
    log.borrow_mut().clear();
    assert_eq!(hx.disable(&mut delay), Ok(()));
    assert_eq!(*log.borrow(), vec![Event::High, Event::Wait(60)]);
}

#[test]
fn enable_drives_clock_low() {
    let (mut hx, mut delay, log) = rig(vec![]);
    hx.disable(&mut delay).unwrap();
    log.borrow_mut().clear();
    assert_eq!(hx.enable(), Ok(()));
    assert_eq!(*log.borrow(), vec![Event::Low]);
}

#[test]
fn disable_reports_clock_fault() {
    let log: Log = Rc::new(RefCell::new(Vec::new()));
    let data = Data { log: log.clone(), levels: VecDeque::new(), fail_when_empty: false };
    let clock = Clock { log: log.clone(), writes_before_fault: Some(1) };
    let mut hx = Hx711::new(data, clock);
    let mut delay = Delay { log: log.clone() };
    assert_eq!(hx.disable(&mut delay), Err(Fault));
    assert_eq!(*log.borrow(), vec![Event::Low]);
}

#[test]
fn reset_reads_twice_with_clock_high() {
    let (mut hx, _delay, log) = rig(vec![true, false]);
    log.borrow_mut().clear();
    assert_eq!(hx.reset(), Ok(()));
    assert_eq!(
        *log.borrow(),
        vec![Event::High, Event::Read(true), Event::Read(false), Event::Low]
    );
    assert_eq!(hx.mode(), Mode::ChAGain128);
}

#[test]
fn destroy_returns_the_lines() {
    let (hx, _delay, _log) = rig(vec![true, true]);
    let (data, clock) = hx.destroy();
    assert_eq!(data.levels.len(), 2);
    assert_eq!(clock.writes_before_fault, None);
}

#[test]
fn reset_stops_at_read_fault() {
    let log: Log = Rc::new(RefCell::new(Vec::new()));
    let data = Data { log: log.clone(), levels: vec![true].into(), fail_when_empty: true };
    let clock = Clock { log: log.clone(), writes_before_fault: None };
    let mut hx = Hx711::new(data, clock);
    log.borrow_mut().clear();
    assert_eq!(hx.reset(), Err(Fault));
    assert_eq!(*log.borrow(), vec![Event::High, Event::Read(true)]);
}
