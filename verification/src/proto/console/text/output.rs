//! Text modes of an output device.
//!
//! A device numbers its text modes from zero. Which of them it supports is
//! only known by asking it, mode by mode; what is decided here is which mode
//! to ask for next and what an answer means.

use crate::status::Status;
use vstd::prelude::*;

verus! {

/// What a text output device tells about itself: the number of its text
/// modes and the number of the mode in use.
#[derive(Debug, Copy, Clone, Eq, PartialEq)]
pub struct Output {
    max_mode: i32,
    mode: i32,
}

impl Output {
    /// The number of modes of the device and the number of the mode in use.
    pub closed spec fn view(&self) -> (i32, i32) {
        (self.max_mode, self.mode)
    }

    /// A device with `max_mode` text modes that uses the mode of number `mode`.
    pub fn new(max_mode: i32, mode: i32) -> (output: Self)
        ensures
            output@ == (max_mode, mode),
    {
        Output { max_mode, mode }
    }

    /// Whether the device can render a string, given its answer to the test
    /// of that string: only success says so.
    pub fn test_string(answer: Status) -> (supported: bool)
        ensures
            supported == (answer == Status::Success),
    {
        match answer {
            Status::Success => true,
            _ => false,
        }
    }

    /// A walk over all text modes of the device, from the first one.
    pub fn modes(&self) -> (iter: OutputModeIter)
        ensures
            iter@ == (0i32, self@.0),
    {
        let max = self.max_mode;
        OutputModeIter { current: 0, max }
    }

    /// The number of the mode in use, for which the device is asked its size.
    pub fn mode(&self) -> (index: i32)
        ensures
            index == self@.1,
    {
        self.mode
    }

    /// The mode in use, given the answer of the device to the query for the
    /// size of that mode, or the error that the device answered with.
    pub fn current_mode(&self, dims: Result<(usize, usize), Status>) -> (r: Result<
        OutputMode,
        Status,
    >)
        ensures
            match dims {
                Ok((columns, rows)) => r matches Ok(m) && m@ == (self@.1, columns, rows),
                Err(e) => r == Err::<OutputMode, Status>(e),
            },
    {
        let index = self.mode;
        match dims {
            Ok(dims) => Ok(OutputMode { index, dims }),
            Err(e) => Err(e),
        }
    }
}

/// The text mode (resolution) of the output device.
#[derive(Debug, Copy, Clone, Eq, PartialEq, Ord, PartialOrd)]
pub struct OutputMode {
    index: i32,
    dims: (usize, usize),
}

impl OutputMode {
    /// The number of this mode and its width and height.
    pub closed spec fn view(&self) -> (i32, usize, usize) {
        (self.index, self.dims.0, self.dims.1)
    }

    /// The mode of number `index` with `columns` columns and `rows` rows.
    pub fn new(index: i32, columns: usize, rows: usize) -> (mode: Self)
        ensures
            mode@ == (index, columns, rows),
    {
        OutputMode { index, dims: (columns, rows) }
    }

    /// Returns the index of this mode.
    pub fn index(&self) -> (index: i32)
        ensures
            index == self@.0,
    {
        self.index
    }

    /// Returns the width in columns.
    pub fn columns(&self) -> (columns: usize)
        ensures
            columns == self@.1,
    {
        self.dims.0
    }

    /// Returns the height in rows.
    pub fn rows(&self) -> (rows: usize)
        ensures
            rows == self@.2,
    {
        self.dims.1
    }
}

/// A walk over the text modes that a device may support: the number of the
/// mode to ask for next, and the number of modes of the device.
pub struct OutputModeIter {
    current: i32,
    max: i32,
}

impl OutputModeIter {
    /// The number of the mode to ask for next and the number of modes.
    pub closed spec fn view(&self) -> (i32, i32) {
        (self.current, self.max)
    }

    /// A walk from the first mode of a device with `max` modes.
    pub fn new(max: i32) -> (iter: Self)
        ensures
            iter@ == (0i32, max),
    {
        OutputModeIter { current: 0, max }
    }

    /// The number of the mode to ask the device for, or `None` when every
    /// mode was asked for. The walk moves on to the mode after it.
    pub fn next_index(&mut self) -> (index: Option<i32>)
        ensures
            old(self)@.0 < old(self)@.1 ==> index == Some(old(self)@.0) && final(self)@ == (
                (old(self)@.0 + 1) as i32,
                old(self)@.1,
            ),
            old(self)@.0 >= old(self)@.1 ==> index is None && final(self)@ == old(self)@,
    {
        let index = self.current;
        if index < self.max {
            self.current = index + 1;
            Some(index)
        } else {
            None
        }
    }

    /// The mode that the walk yields for the device's answer to the query
    /// for mode `index`: the mode with the size that the device gave, and
    /// nothing for a mode that the device refused, after which the walk goes
    /// on with the next query.
    pub fn answer(index: i32, dims: Result<(usize, usize), Status>) -> (mode: Option<OutputMode>)
        ensures
            match dims {
                Ok((columns, rows)) => mode matches Some(m) && m@ == (index, columns, rows),
                Err(_) => mode is None,
            },
    {
        match dims {
            Ok(dims) => Some(OutputMode { index, dims }),
            Err(_) => None,
        }
    }
}

} // verus!
