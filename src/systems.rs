//! The life cycle of a context's ordered list of systems: systems are added
//! before setup, set up once, and run only after setup.

use vstd::prelude::*;

verus! {

/// Where the list of systems is in its life cycle.
#[derive(Clone, Copy, PartialEq, Eq, Structural, Debug)]
pub enum SystemState {
    /// Systems may be added.
    Uninitialized,
    /// The systems are being set up.
    Initializing,
    /// The systems are set up and may run.
    Initialized,
}

/// A step that the life cycle does not allow.
#[derive(Clone, Copy, PartialEq, Eq, Structural, Debug)]
pub enum SystemError {
    /// A system was added while the systems were being set up.
    AddDuringInitialization,
    /// A system was added after setup.
    AddAfterInitialization,
    /// Setup was started again while it was running.
    RecursiveSetup,
    /// Setup was started after it had finished.
    AlreadyInitialized,
    /// The systems were run before setup.
    NotInitialized,
}

impl SystemState {
    /// The state of a new list.
    pub fn new() -> (r: Self)
        ensures
            r == SystemState::Uninitialized,
    {
        SystemState::Uninitialized
    }

    /// Whether a system may be added now.
    pub fn check_add(&self) -> (r: Result<(), SystemError>)
        ensures
            r == (match *self {
                SystemState::Uninitialized => Ok(()),
                SystemState::Initializing => Err(SystemError::AddDuringInitialization),
                SystemState::Initialized => Err(SystemError::AddAfterInitialization),
            }),
    {
        match self {
            SystemState::Uninitialized => Ok(()),
            SystemState::Initializing => Err(SystemError::AddDuringInitialization),
            SystemState::Initialized => Err(SystemError::AddAfterInitialization),
        }
    }

    /// Start setup: allowed only once, from the initial state.
    pub fn begin_setup(&mut self) -> (r: Result<(), SystemError>)
        ensures
            r == (match *old(self) {
                SystemState::Uninitialized => Ok(()),
                SystemState::Initializing => Err(SystemError::RecursiveSetup),
                SystemState::Initialized => Err(SystemError::AlreadyInitialized),
            }),
            *final(self) == (if r is Ok { SystemState::Initializing } else { *old(self) }),
    {
        match self {
            SystemState::Uninitialized => {
                *self = SystemState::Initializing;
                Ok(())
            },
            SystemState::Initializing => Err(SystemError::RecursiveSetup),
            SystemState::Initialized => Err(SystemError::AlreadyInitialized),
        }
    }

    /// Finish setup.
    pub fn finish_setup(&mut self)
        requires
            *old(self) == SystemState::Initializing,
        ensures
            *final(self) == SystemState::Initialized,
    {
        *self = SystemState::Initialized;
    }

    /// Whether the systems may run now.
    pub fn check_run(&self) -> (r: Result<(), SystemError>)
        ensures
            r is Ok <==> *self == SystemState::Initialized,
            r is Err ==> r == Err::<(), SystemError>(SystemError::NotInitialized),
    {
        match self {
            SystemState::Initialized => Ok(()),
            _ => Err(SystemError::NotInitialized),
        }
    }
}

} // verus!
