//! The status codes of the audio decoder: a negative number is an error,
//! any other a result.

use vstd::prelude::*;

verus! {

/// An error of the audio decoder, by its code. The code is negative.
#[derive(Clone, Copy, Debug, PartialEq, Eq)]
pub struct AVError(pub i32);

pub type AVResult<T> = Result<T, AVError>;

/// Reading a status code as a result.
pub trait AVI32Ext: Sized {
    /// The status code as a number.
    spec fn code(self) -> int;

    /// Nothing for a code that is no error.
    fn av_void(self) -> (r: AVResult<()>)
        ensures
            self.code() < 0 ==> r == Err::<(), AVError>(AVError(self.code() as i32)),
            self.code() >= 0 ==> r is Ok,
    ;

    /// The code itself where it is no error.
    fn av_i32(self) -> (r: AVResult<i32>)
        ensures
            self.code() < 0 ==> r == Err::<i32, AVError>(AVError(self.code() as i32)),
            self.code() >= 0 ==> r == Ok::<i32, AVError>(self.code() as i32),
    ;

    /// The code as an unsigned number where it is no error.
    fn av_u32(self) -> (r: AVResult<u32>)
        ensures
            self.code() < 0 ==> r == Err::<u32, AVError>(AVError(self.code() as i32)),
            self.code() >= 0 ==> r == Ok::<u32, AVError>(self.code() as u32),
    ;

    /// The code as a length where it is no error.
    fn av_usize(self) -> (r: AVResult<usize>)
        ensures
            self.code() < 0 ==> r == Err::<usize, AVError>(AVError(self.code() as i32)),
            self.code() >= 0 ==> r == Ok::<usize, AVError>(self.code() as usize),
    ;
}

impl AVI32Ext for i32 {
    open spec fn code(self) -> int {
        self as int
    }

    fn av_void(self) -> (r: AVResult<()>) {
        if self < 0 {
            Err(AVError(self))
        } else {
            Ok(())
        }
    }

    fn av_i32(self) -> (r: AVResult<i32>) {
        if self < 0 {
            Err(AVError(self))
        } else {
            Ok(self)
        }
    }

    fn av_u32(self) -> (r: AVResult<u32>) {
        match self.av_i32() {
            Ok(x) => Ok(x as u32),
            Err(e) => Err(e),
        }
    }

    fn av_usize(self) -> (r: AVResult<usize>) {
        match self.av_i32() {
            Ok(x) => Ok(x as usize),
            Err(e) => Err(e),
        }
    }
}

} // verus!
