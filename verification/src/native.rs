//! The functions that the language provides built in.

use vstd::prelude::*;

verus! {

/// A built-in function.
#[derive(Debug, Clone, Copy, PartialEq, Eq, Structural)]
pub enum NativeFunction {
    /// The seconds since the Unix epoch.
    Clock,
}

/// The clock function's name and arity.
pub struct Clock;

impl Clock {
    pub const NAME: &'static str = "clock";

    pub const ARITY: usize = 0;
}

impl NativeFunction {
    /// Every built-in function, each once.
    pub const ALL: [NativeFunction; 1] = [NativeFunction::Clock];

    /// The name the function is bound to in the global environment.
    pub fn name(&self) -> (r: &'static str)
        ensures
            match self {
                NativeFunction::Clock => r@ == "clock"@,
            },
    {
        match self {
            NativeFunction::Clock => Clock::NAME,
        }
    }

    /// How many arguments the function takes.
    pub fn arity(&self) -> (r: usize)
        ensures
            match self {
                NativeFunction::Clock => r == 0,
            },
    {
        match self {
            NativeFunction::Clock => Clock::ARITY,
        }
    }
}

} // verus!
