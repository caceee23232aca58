use crate::asns::Asns;
use crate::error::LoadError;
use crate::intern::share;
use std::sync::Arc;
use vstd::prelude::*;

verus! {

/// The Snapshot Controller: the snapshot that is being served.
///
/// Readers take a handle with [`SnapshotController::current`] and keep
/// using it for as long as they like. A reload builds its snapshot apart
/// from the controller and hands over the result: a new snapshot takes the
/// place of the old one at once and as a whole, a failure leaves the old one
/// in place. The caller guards the controller with its lock.
pub struct SnapshotController {
    current: Arc<Asns>,
}

/// The time between two reloads, in seconds, for a delay given in minutes.
/// A delay of 0 switches reloads off; a delay too long to count in seconds
/// is cut to the longest time that can be counted.
pub fn refresh_period(minutes: u64) -> (seconds: Option<u64>)
    ensures
        minutes == 0 ==> seconds is None,
        minutes > 0 ==> seconds == Some(
            if minutes * 60 <= u64::MAX {
                (minutes * 60) as u64
            } else {
                u64::MAX
            },
        ),
{
    if minutes == 0 {
        None
    } else {
        match minutes.checked_mul(60) {
            Some(seconds) => Some(seconds),
            None => Some(u64::MAX),
        }
    }
}

impl SnapshotController {
    /// The snapshot that is being served.
    pub closed spec fn snapshot(&self) -> Asns {
        *self.current
    }

    /// Begins to serve with the result of the first load. Without a
    /// snapshot there is no controller: the error is handed back.
    pub fn start(loaded: Result<Asns, LoadError>) -> (started: Result<SnapshotController, LoadError>)
        ensures
            match loaded {
                Ok(asns) => started is Ok && started->Ok_0.snapshot() == asns,
                Err(e) => started is Err && started->Err_0 == e,
            },
    {
        match loaded {
            Ok(asns) => Ok(SnapshotController { current: Arc::new(asns) }),
            Err(e) => Err(e),
        }
    }

    /// A handle to the snapshot that is being served.
    pub fn current(&self) -> (handle: Arc<Asns>)
        ensures
            *handle == self.snapshot(),
    {
        share(&self.current)
    }

    /// Takes in the result of a reload. A new snapshot is served from now
    /// on; a failure changes nothing and is handed back.
    pub fn reload(&mut self, loaded: Result<Asns, LoadError>) -> (result: Result<(), LoadError>)
        ensures
            match loaded {
                Ok(asns) => result is Ok && final(self).snapshot() == asns,
                Err(e) => result == Err::<(), LoadError>(e) && final(self).snapshot() == old(
                    self,
                ).snapshot(),
            },
    {
        match loaded {
            Ok(asns) => {
                self.current = Arc::new(asns);
                Ok(())
            },
            Err(e) => Err(e),
        }
    }
}

} // verus!
