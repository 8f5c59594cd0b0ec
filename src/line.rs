use vstd::prelude::*;

verus! {

/// The model of an output line: for each call, the level asked for and what
/// the call returned.
pub type Drives<E> = Seq<(bool, Result<(), E>)>;

/// The model of an input line: what each read returned.
pub type Levels<E> = Seq<Result<bool, E>>;

/// The model of a delay provider: each delay asked for, in microseconds.
pub type Delays = Seq<u32>;

/// A digital output line, such as a push-pull GPIO pin.
///
/// Its model is the list of every call made on it. The model is ghost state:
/// the verifier reasons with it and nothing calls it at run time. Nothing is
/// assumed of the electrical result, nor of which calls succeed.
pub trait OutputLine {
    /// What a failed line access reports.
    type Error;

    /// Every call made on the line so far, oldest first: the level asked
    /// for (`true` for high) and what the call returned.
    spec fn driven(&self) -> Drives<Self::Error>;

    /// Drives the line high.
    fn set_high(&mut self) -> (r: Result<(), Self::Error>)
        ensures
            r is Ok ==> final(self).driven() == old(self).driven().push((true, Ok(()))),
            r matches Err(e) ==> final(self).driven() == old(self).driven().push((true, Err(e))),
    ;

    /// Drives the line low.
    fn set_low(&mut self) -> (r: Result<(), Self::Error>)
        ensures
            r is Ok ==> final(self).driven() == old(self).driven().push((false, Ok(()))),
            r matches Err(e) ==> final(self).driven() == old(self).driven().push((false, Err(e))),
    ;
}

/// A digital input line, such as a GPIO pin configured as input.
///
/// Its model is the list of every read made on it.
pub trait InputLine {
    /// What a failed line access reports.
    type Error;

    /// What every read of the line so far returned, oldest first.
    spec fn seen(&self) -> Levels<Self::Error>;

    /// Reads the line level: `true` for high.
    fn is_high(&mut self) -> (r: Result<bool, Self::Error>)
        ensures
            final(self).seen() == old(self).seen().push(r),
    ;
}

/// A provider of blocking delays.
pub trait DelayUs {
    /// Every delay asked for so far, in microseconds, oldest first.
    spec fn waited(&self) -> Delays;

    /// Waits for at least `us` microseconds.
    fn delay_us(&mut self, us: u32)
        ensures
            final(self).waited() == old(self).waited().push(us),
    ;
}

} // verus!
