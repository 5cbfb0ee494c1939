//! System signal kinds.

use vstd::prelude::*;

verus! {

/// The system signals the event system reports.
#[derive(Debug, Clone, Copy, PartialEq, Eq, Structural)]
pub enum SignalType {
    /// Termination request (signal 15).
    SIGTERM,
    /// Interrupt (signal 2).
    SIGINT,
    /// Hang-up (signal 1).
    SIGHUP,
    /// Terminal stop (signal 20).
    SIGTSTP,
    /// Continue (signal 18).
    SIGCONT,
}

/// The POSIX number of a signal.
pub open spec fn signal_number_spec(s: SignalType) -> u8 {
    match s {
        SignalType::SIGTERM => 15,
        SignalType::SIGINT => 2,
        SignalType::SIGHUP => 1,
        SignalType::SIGTSTP => 20,
        SignalType::SIGCONT => 18,
    }
}

impl SignalType {
    /// The POSIX number of the signal.
    pub fn signal_number(&self) -> (n: u8)
        ensures
            n == signal_number_spec(*self),
    {
        match self {
            SignalType::SIGTERM => 15,
            SignalType::SIGINT => 2,
            SignalType::SIGHUP => 1,
            SignalType::SIGTSTP => 20,
            SignalType::SIGCONT => 18,
        }
    }

    /// The signal with the given POSIX number, if it is one of these.
    pub fn from_number(n: u8) -> (s: Option<SignalType>)
        ensures
            match s {
                Some(t) => signal_number_spec(t) == n,
                None => n != 15 && n != 2 && n != 1 && n != 20 && n != 18,
            },
    {
        match n {
            15 => Some(SignalType::SIGTERM),
            2 => Some(SignalType::SIGINT),
            1 => Some(SignalType::SIGHUP),
            20 => Some(SignalType::SIGTSTP),
            18 => Some(SignalType::SIGCONT),
            _ => None,
        }
    }
}

} // verus!
