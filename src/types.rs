//! Plain data shared by the modules of the crate.
use vstd::prelude::*;

verus! {

/// Index of an era.
pub type EraIndex = u32;

/// Index of a session.
pub type SessionIndex = u32;

/// Identity of an account that may stake and be elected.
pub type AccountId = u64;

/// An elected sequencer together with its stake.
pub type Sequencer = (AccountId, u128);

/// Mode of era-forcing.
#[derive(Clone, Copy, Debug, PartialEq, Eq, Structural)]
pub enum Forcing {
    /// Not forcing anything: a new era comes once enough sessions have passed.
    NotForcing,
    /// Force a new era, then reset to `NotForcing` as soon as it is done.
    /// The reset is made by whoever administers the forcing mode.
    ForceNew,
    /// Avoid a new era indefinitely.
    ForceNone,
    /// Force a new era at the end of all sessions indefinitely.
    ForceAlways,
}

impl Default for Forcing {
    fn default() -> (r: Self)
        ensures
            r == Forcing::NotForcing,
    {
        Forcing::NotForcing
    }
}

/// Information regarding the active era (the era in use in the current session).
#[derive(Clone, Copy, Debug, PartialEq, Eq, Structural)]
pub struct ActiveEraInfo {
    /// Index of era.
    pub index: EraIndex,
    /// Moment of start expressed as milliseconds since the Unix epoch.
    ///
    /// Start is `None` until the first block of the era is finalized.
    pub start: Option<u64>,
}

/// Constants fixed when the component is deployed.
#[derive(Clone, Copy, Debug, PartialEq, Eq, Structural)]
pub struct Config {
    /// Number of sessions per era.
    pub sessions_per_era: SessionIndex,
    /// Number of eras to keep in history.
    pub history_depth: u32,
    /// Least number of sequencers that an election returns, candidates permitting.
    pub min_sequencer_count: u32,
}

/// Who asks for an administrative operation.
#[derive(Clone, Copy, Debug, PartialEq, Eq, Structural)]
pub enum Origin {
    /// The privileged origin.
    Root,
    /// An ordinary signed account.
    Signed(AccountId),
    /// An unsigned request.
    Unsigned,
}

/// Events of the component, for a host that reports them. The component
/// itself emits none; a host may report a planned era with `NewEra`.
#[derive(Clone, Copy, Debug, PartialEq, Eq, Structural)]
pub enum Event {
    /// Era `era` was planned at session `start_session`.
    NewEra { era: EraIndex, start_session: SessionIndex },
}

/// Errors of the administrative operations.
#[derive(Clone, Copy, Debug, PartialEq, Eq, Structural)]
pub enum Error {
    /// A value that had to be present was absent.
    NoneValue,
    /// The sum of all recorded stakes would not fit in 128 bits.
    StorageOverflow,
    /// The operation needs the privileged origin.
    BadOrigin,
}

} // verus!
