//! The plain values of a raw terminal device: its screen size, how input
//! is polled, and which mode it is in and must be restored to.
use vstd::prelude::*;

verus! {

/// The size of the terminal screen in character cells, and the size of a
/// cell in pixels where the platform reports it (zero where it does not).
#[derive(Clone, Copy, Debug, PartialEq, Eq, Structural)]
pub struct ScreenSize {
    /// The number of rows of text
    pub rows: usize,
    /// The number of columns per row
    pub cols: usize,
    /// The width of a cell in pixels
    pub xpixel: usize,
    /// The height of a cell in pixels
    pub ypixel: usize,
}

/// What `poll_input` does when no input is queued.
#[derive(Clone, Copy, Debug, PartialEq, Eq, Structural)]
pub enum Blocking {
    DoNotWait,
    Wait,
}

/// A terminal device.  Whatever sequence of mode changes it goes through,
/// an implementation restores the mode it found when it is torn down
/// (see `ModeTracker`).
pub trait Terminal {
    /// A display change: a cursor move, an attribute change, text.
    type Change;
    /// A key, mouse or resize event.
    type InputEvent;
    type Error;

    /// Disables line buffering, local echo and newline translation.
    fn set_raw_mode(&mut self) -> Result<(), Self::Error>;

    /// Queries the current screen size.
    fn get_screen_size(&mut self) -> Result<ScreenSize, Self::Error>;

    /// Sets the current screen size.
    fn set_screen_size(&mut self, size: ScreenSize) -> Result<(), Self::Error>;

    /// Renders a series of changes; output may be buffered until `flush`.
    fn render(&mut self, changes: &[Self::Change]) -> Result<(), Self::Error>;

    /// Flushes any buffered output.
    fn flush(&mut self) -> Result<(), Self::Error>;

    /// Checks for an input event; see `poll_step` for what happens when
    /// none is queued.
    fn poll_input(&mut self, blocking: Blocking) -> Result<Option<Self::InputEvent>, Self::Error>;
}

/// The input mode of the device.
#[derive(Clone, Copy, Debug, PartialEq, Eq, Structural)]
pub enum Mode {
    /// Line buffering, local echo and newline translation are on.
    Cooked,
    /// Keys are read as they are pressed, without echo or translation.
    Raw,
}

/// The mode a device is in, and the mode it was in when it was opened,
/// which teardown restores.
pub struct ModeTracker {
    original: Mode,
    current: Mode,
}

/// What a poll of the input does next.
#[derive(Debug, PartialEq, Eq, Structural)]
pub enum PollStep<T> {
    /// Return this to the caller: an event, or none.
    Deliver(Option<T>),
    /// Suspend until the device has input or closes.
    Suspend,
}

impl ModeTracker {
    pub closed spec fn spec_original(&self) -> Mode {
        self.original
    }

    pub closed spec fn spec_current(&self) -> Mode {
        self.current
    }

    /// A device found in mode `initial`.
    pub fn new(initial: Mode) -> (r: Self)
        ensures
            r.spec_original() == initial,
            r.spec_current() == initial,
    {
        ModeTracker { original: initial, current: initial }
    }

    pub fn current(&self) -> (r: Mode)
        ensures
            r == self.spec_current(),
    {
        self.current
    }

    /// Records the outcome of asking the device for raw mode: the mode
    /// changes only where the device took the change.
    pub fn set_raw_mode<E>(&mut self, device_result: Result<(), E>) -> (r: Result<(), E>)
        ensures
            r is Ok <==> device_result is Ok,
            final(self).spec_original() == old(self).spec_original(),
            device_result is Ok ==> final(self).spec_current() == Mode::Raw,
            device_result is Err ==> final(self).spec_current() == old(self).spec_current(),
    {
        match device_result {
            Ok(()) => {
                self.current = Mode::Raw;
                Ok(())
            },
            Err(e) => Err(e),
        }
    }

    /// Records the outcome of asking the device for cooked mode.
    pub fn set_cooked_mode<E>(&mut self, device_result: Result<(), E>) -> (r: Result<(), E>)
        ensures
            r is Ok <==> device_result is Ok,
            final(self).spec_original() == old(self).spec_original(),
            device_result is Ok ==> final(self).spec_current() == Mode::Cooked,
            device_result is Err ==> final(self).spec_current() == old(self).spec_current(),
    {
        match device_result {
            Ok(()) => {
                self.current = Mode::Cooked;
                Ok(())
            },
            Err(e) => Err(e),
        }
    }

    /// The mode that teardown puts the device back in: the one it was
    /// found in, however often the mode changed since.
    pub fn mode_to_restore(&self) -> (r: Mode)
        ensures
            r == self.spec_original(),
    {
        self.original
    }
}

/// Decides a poll of the input from what is queued: a queued event is
/// delivered at once; with nothing queued, `DoNotWait` delivers none and
/// `Wait` suspends.
pub fn poll_step<T>(blocking: Blocking, queued: Option<T>) -> (r: PollStep<T>)
    ensures
        queued is Some ==> r == PollStep::Deliver(queued),
        queued is None && blocking == Blocking::DoNotWait ==> r == PollStep::<T>::Deliver(None),
        queued is None && blocking == Blocking::Wait ==> r == PollStep::<T>::Suspend,
{
    match queued {
        Some(ev) => PollStep::Deliver(Some(ev)),
        None => match blocking {
            Blocking::DoNotWait => PollStep::Deliver(None),
            Blocking::Wait => PollStep::Suspend,
        },
    }
}

} // verus!
