//! The era state machine: session notifications plan eras and run the
//! election, session starts activate them, block finalization stamps them.
use vstd::prelude::*;
use crate::election::{elect, elect_spec, stake_of, stake_set, StakeRegistry};
use crate::era::{copy_roster, EraInfo};
use crate::types::{
    AccountId, ActiveEraInfo, Config, EraIndex, Error, Forcing, Origin, Sequencer, SessionIndex,
};

verus! {

/// Whether era `k` is still inside the history kept when `current` is the
/// latest planned era and `depth` eras are kept.
pub open spec fn in_history(k: EraIndex, current: EraIndex, depth: u32) -> bool {
    k <= current && k + depth > current
}

/// Whether `starts` holds an entry for exactly the eras of the history kept
/// when `current` is the latest planned era and `depth` eras are kept.
pub open spec fn history_exact(starts: Map<EraIndex, SessionIndex>, current: EraIndex, depth: u32) -> bool {
    forall|k: EraIndex| #[trigger] starts.contains_key(k) <==> in_history(k, current, depth)
}

/// `a - b`, or 0 where `b` exceeds `a`.
pub open spec fn saturating_sub(a: int, b: int) -> int {
    if a >= b {
        a - b
    } else {
        0
    }
}

/// Whether the forcing mode `force` rolls to a new era once `era_length`
/// sessions of the current era have passed.
pub open spec fn forcing_triggers(force: Forcing, era_length: int, sessions_per_era: int) -> bool {
    match force {
        Forcing::ForceNew => true,
        Forcing::ForceAlways => true,
        Forcing::NotForcing => era_length >= sessions_per_era,
        Forcing::ForceNone => false,
    }
}

/// The era that is planned after `current`.
pub open spec fn next_era(current: Option<EraIndex>) -> int {
    match current {
        None => 0,
        Some(e) => e + 1,
    }
}

/// The era that is activated after `active`.
pub open spec fn next_active_era(active: Option<ActiveEraInfo>) -> int {
    match active {
        None => 0,
        Some(a) => a.index + 1,
    }
}

/// `starts` with the entry of the era `depth` eras before `era` removed, where there is one.
pub open spec fn prune_history(starts: Map<EraIndex, SessionIndex>, era: EraIndex, depth: u32) -> Map<
    EraIndex,
    SessionIndex,
> {
    if era >= depth {
        starts.remove((era - depth) as EraIndex)
    } else {
        starts
    }
}

/// The sequencer-selection component: its configuration and all of its state.
pub struct Pallet {
    config: Config,
    current_era: Option<EraIndex>,
    active_era: Option<ActiveEraInfo>,
    force_era: Forcing,
    sequencers_per_group: u32,
    eras: EraInfo,
    restake_data: StakeRegistry,
}

impl Pallet {
    /// The configuration fixed at deployment.
    pub closed spec fn config_view(&self) -> Config {
        self.config
    }

    /// The latest planned era.
    pub closed spec fn current_era_view(&self) -> Option<EraIndex> {
        self.current_era
    }

    /// The era in use, once one was activated.
    pub closed spec fn active_era_view(&self) -> Option<ActiveEraInfo> {
        self.active_era
    }

    /// The forcing mode read at each session notification.
    pub closed spec fn force_era_view(&self) -> Forcing {
        self.force_era
    }

    /// The number of sequencers per group, kept for grouping; the election
    /// does not read it.
    pub closed spec fn sequencers_per_group_view(&self) -> u32 {
        self.sequencers_per_group
    }

    /// The session at which each era of the kept history started planning.
    pub closed spec fn start_sessions(&self) -> Map<EraIndex, SessionIndex> {
        self.eras.start_sessions()
    }

    /// The roster elected for each era.
    pub closed spec fn rosters(&self) -> Map<EraIndex, Seq<Sequencer>> {
        self.eras.rosters()
    }

    /// The stake registry, in order of first deposit.
    pub closed spec fn stakes(&self) -> Seq<(AccountId, u128)> {
        self.restake_data@
    }

    /// The history holds exactly the recent eras, the active era is never
    /// ahead of the planned one, and the stake registry is well formed.
    pub closed spec fn wf(&self) -> bool {
        &&& self.restake_data.wf()
        &&& match self.current_era {
            None => {
                &&& self.start_sessions().dom() == Set::<EraIndex>::empty()
                &&& self.active_era is None
            },
            Some(e) => history_exact(self.start_sessions(), e, self.config.history_depth),
        }
        &&& match self.active_era {
            None => true,
            Some(a) => self.current_era matches Some(e) && a.index <= e,
        }
    }

    /// Length of the current era in sessions, at session `session_index`;
    /// a missing start counts as session 0.
    pub open spec fn era_length_at(&self, session_index: SessionIndex) -> int {
        let e = self.current_era_view().unwrap();
        let start = if self.start_sessions().contains_key(e) {
            self.start_sessions()[e] as int
        } else {
            0
        };
        saturating_sub(session_index as int, start)
    }

    /// Whether a session notification at `session_index` plans a new era.
    pub open spec fn triggers_at(&self, session_index: SessionIndex) -> bool {
        match self.current_era_view() {
            None => true,
            Some(_) => forcing_triggers(
                self.force_era_view(),
                self.era_length_at(session_index),
                self.config_view().sessions_per_era as int,
            ),
        }
    }

    /// Whether `post` is `self` after a session notification at
    /// `session_index` with `candidates`, which returned `r`.
    pub open spec fn new_session_post(
        &self,
        post: &Pallet,
        session_index: SessionIndex,
        candidates: Seq<AccountId>,
        r: Option<Seq<Sequencer>>,
    ) -> bool {
        &&& post.config_view() == self.config_view()
        &&& post.active_era_view() == self.active_era_view()
        &&& post.force_era_view() == self.force_era_view()
        &&& post.sequencers_per_group_view() == self.sequencers_per_group_view()
        &&& post.stakes() == self.stakes()
        &&& if self.triggers_at(session_index) {
            let era = next_era(self.current_era_view()) as EraIndex;
            let roster = elect_spec(
                candidates,
                self.stakes(),
                self.config_view().min_sequencer_count as nat,
            );
            &&& r == Some(roster)
            &&& post.current_era_view() == Some(era)
            &&& post.start_sessions() == prune_history(
                self.start_sessions().insert(era, session_index),
                era,
                self.config_view().history_depth,
            )
            &&& post.rosters() == self.rosters().insert(era, roster)
        } else {
            &&& r is None
            &&& post.current_era_view() == self.current_era_view()
            &&& post.start_sessions() == self.start_sessions()
            &&& post.rosters() == self.rosters()
        }
    }

    /// A component with no era, no stake, and `NotForcing`.
    pub fn new(config: Config) -> (r: Self)
        ensures
            r.wf(),
            r.config_view() == config,
            r.current_era_view() is None,
            r.active_era_view() is None,
            r.force_era_view() == Forcing::NotForcing,
            r.sequencers_per_group_view() == 0,
            r.start_sessions() == Map::<EraIndex, SessionIndex>::empty(),
            r.rosters() == Map::<EraIndex, Seq<Sequencer>>::empty(),
            r.stakes() == Seq::<(AccountId, u128)>::empty(),
    {
        let r = Pallet {
            config,
            current_era: None,
            active_era: None,
            force_era: Forcing::NotForcing,
            sequencers_per_group: 0,
            eras: EraInfo::new(),
            restake_data: StakeRegistry::new(),
        };
        assert(r.start_sessions().dom() =~= Set::<EraIndex>::empty());
        r
    }

    /// Whether a session start at `session` activates the era after the active one.
    pub open spec fn activates_at(&self, session: SessionIndex) -> bool {
        let next = next_active_era(self.active_era_view());
        &&& next <= u32::MAX
        &&& self.start_sessions().contains_key(next as EraIndex)
        &&& self.start_sessions()[next as EraIndex] <= session
    }

    /// Plans the era after the current one (era 0 where there is none yet):
    /// records its start session, forgets the start of the era that falls out
    /// of the history, and elects and stores its roster.
    fn trigger_new_era(&mut self, start_session_index: SessionIndex, validators: &Vec<AccountId>) -> (r: Vec<Sequencer>)
        requires
            old(self).wf(),
            validators@.len() <= u32::MAX,
            old(self).current_era_view() matches Some(e) ==> e < u32::MAX,
        ensures
            final(self).wf(),
            ({
                let era = next_era(old(self).current_era_view()) as EraIndex;
                let roster = elect_spec(
                    validators@,
                    old(self).stakes(),
                    old(self).config_view().min_sequencer_count as nat,
                );
                &&& r@ == roster
                &&& final(self).current_era_view() == Some(era)
                &&& final(self).start_sessions() == prune_history(
                    old(self).start_sessions().insert(era, start_session_index),
                    era,
                    old(self).config_view().history_depth,
                )
                &&& final(self).rosters() == old(self).rosters().insert(era, roster)
            }),
            final(self).config_view() == old(self).config_view(),
            final(self).active_era_view() == old(self).active_era_view(),
            final(self).force_era_view() == old(self).force_era_view(),
            final(self).sequencers_per_group_view() == old(self).sequencers_per_group_view(),
            final(self).stakes() == old(self).stakes(),
    {
        let new_planned_era: EraIndex = match self.current_era {
            None => 0,
            Some(e) => e + 1,
        };
        self.current_era = Some(new_planned_era);
        self.eras.set_start_session_index(new_planned_era, start_session_index);
        let depth = self.config.history_depth;
        if new_planned_era >= depth {
            self.eras.clear_era_information(new_planned_era - depth);
        }
        let sequencers = elect(validators, &self.restake_data, self.config.min_sequencer_count);
        self.eras.set_sequencer(new_planned_era, copy_roster(&sequencers));
        proof {
            let starts = self.start_sessions();
            assert forall|k: EraIndex| #[trigger]
                starts.contains_key(k) <==> in_history(k, new_planned_era, depth) by {
                match old(self).current_era {
                    None => {
                        assert(!old(self).start_sessions().dom().contains(k));
                    },
                    Some(e) => {
                        assert(old(self).start_sessions().contains_key(k) <==> in_history(
                            k,
                            e,
                            depth,
                        ));
                    },
                }
            }
        }
        sequencers
    }

    /// Whether a session notification at `session_index` would plan a new era.
    pub fn would_trigger(&self, session_index: SessionIndex) -> (r: bool)
        ensures
            r == self.triggers_at(session_index),
    {
        match self.current_era {
            None => true,
            Some(current_era) => {
                let start = match self.eras.start_session_index(current_era) {
                    Some(s) => s,
                    None => 0,
                };
                let era_length: SessionIndex = if session_index >= start {
                    session_index - start
                } else {
                    0
                };
                match self.force_era {
                    Forcing::ForceNew => true,
                    Forcing::ForceAlways => true,
                    Forcing::NotForcing => era_length >= self.config.sessions_per_era,
                    Forcing::ForceNone => false,
                }
            },
        }
    }

    /// Handles the notification of a new session at `session_index`, with
    /// the candidates of the session.
    ///
    /// Where no era was planned yet, era 0 is planned. Otherwise the forcing
    /// mode decides, from the number of sessions since the current era
    /// started (see `triggers_at`). Returns the roster of the planned era, or
    /// `None` where no era was planned.
    pub fn new_session(&mut self, session_index: SessionIndex, validators: &Vec<AccountId>) -> (r:
        Option<Vec<Sequencer>>)
        requires
            old(self).wf(),
            validators@.len() <= u32::MAX,
            old(self).triggers_at(session_index) ==> (old(self).current_era_view() matches Some(e)
                ==> e < u32::MAX),
        ensures
            final(self).wf(),
            old(self).new_session_post(
                final(self),
                session_index,
                validators@,
                match r {
                    Some(v) => Some(v@),
                    None => None,
                },
            ),
            final(self).current_era_view() is Some,
            old(self).current_era_view() matches Some(o) ==> (final(self).current_era_view()
                == Some(o) || final(self).current_era_view() == Some((o + 1) as EraIndex)),
            r is Some ==> final(self).current_era_view() == Some(
                next_era(old(self).current_era_view()) as EraIndex,
            ),
            r is None ==> final(self).current_era_view() == old(self).current_era_view(),
            old(self).current_era_view() is None ==> r is Some,
            (old(self).current_era_view() is Some && old(self).force_era_view()
                == Forcing::ForceNone) ==> r is None,
            old(self).force_era_view() == Forcing::ForceAlways ==> r is Some,
            old(self).force_era_view() == Forcing::ForceNew ==> r is Some,
    {
        if !self.would_trigger(session_index) {
            return None;
        }
        Some(self.trigger_new_era(session_index, validators))
    }

    /// Makes the era after the active one (era 0 where none is) the active
    /// era, with its start not stamped yet.
    fn start_era(&mut self)
        requires
            old(self).wf(),
            next_active_era(old(self).active_era_view()) <= u32::MAX,
            old(self).start_sessions().contains_key(
                next_active_era(old(self).active_era_view()) as EraIndex,
            ),
        ensures
            final(self).wf(),
            final(self).active_era_view() == Some(
                ActiveEraInfo {
                    index: next_active_era(old(self).active_era_view()) as EraIndex,
                    start: None,
                },
            ),
            final(self).config_view() == old(self).config_view(),
            final(self).current_era_view() == old(self).current_era_view(),
            final(self).force_era_view() == old(self).force_era_view(),
            final(self).sequencers_per_group_view() == old(self).sequencers_per_group_view(),
            final(self).start_sessions() == old(self).start_sessions(),
            final(self).rosters() == old(self).rosters(),
            final(self).stakes() == old(self).stakes(),
    {
        let new_index: EraIndex = match self.active_era {
            Some(info) => info.index + 1,
            None => 0,
        };
        proof {
            match self.current_era {
                Some(e) => {
                    assert(in_history(new_index, e, self.config.history_depth));
                },
                None => {
                    assert(self.start_sessions().dom().contains(new_index));
                },
            }
        }
        self.active_era = Some(ActiveEraInfo { index: new_index, start: None });
    }

    /// Handles the start of session `start_session`: where the era after the
    /// active one started planning at that session, or at an earlier one that
    /// was skipped, it becomes the active era.
    pub fn start_session(&mut self, start_session: SessionIndex)
        requires
            old(self).wf(),
        ensures
            final(self).wf(),
            final(self).active_era_view() == (if old(self).activates_at(start_session) {
                Some(
                    ActiveEraInfo {
                        index: next_active_era(old(self).active_era_view()) as EraIndex,
                        start: None,
                    },
                )
            } else {
                old(self).active_era_view()
            }),
            final(self).config_view() == old(self).config_view(),
            final(self).current_era_view() == old(self).current_era_view(),
            final(self).force_era_view() == old(self).force_era_view(),
            final(self).sequencers_per_group_view() == old(self).sequencers_per_group_view(),
            final(self).start_sessions() == old(self).start_sessions(),
            final(self).rosters() == old(self).rosters(),
            final(self).stakes() == old(self).stakes(),
    {
        let next_active_era: Option<EraIndex> = match self.active_era {
            None => Some(0),
            Some(e) => if e.index < u32::MAX {
                Some(e.index + 1)
            } else {
                None
            },
        };
        if let Some(next) = next_active_era {
            if let Some(next_start) = self.eras.start_session_index(next) {
                if next_start == start_session {
                    self.start_era();
                } else if next_start < start_session {
                    // A session appears to have been skipped: activate anyway.
                    self.start_era();
                }
            }
        }
    }

    /// Handles the finalization of a block at `now_millis`: the active era's
    /// start is stamped, once.
    pub fn on_finalize(&mut self, now_millis: u64)
        requires
            old(self).wf(),
        ensures
            final(self).wf(),
            final(self).active_era_view() == (match old(self).active_era_view() {
                Some(a) => if a.start is None {
                    Some(ActiveEraInfo { index: a.index, start: Some(now_millis) })
                } else {
                    Some(a)
                },
                None => None,
            }),
            final(self).config_view() == old(self).config_view(),
            final(self).current_era_view() == old(self).current_era_view(),
            final(self).force_era_view() == old(self).force_era_view(),
            final(self).sequencers_per_group_view() == old(self).sequencers_per_group_view(),
            final(self).start_sessions() == old(self).start_sessions(),
            final(self).rosters() == old(self).rosters(),
            final(self).stakes() == old(self).stakes(),
    {
        if let Some(active_era) = self.active_era {
            if active_era.start.is_none() {
                self.active_era = Some(ActiveEraInfo { index: active_era.index, start: Some(now_millis) });
            }
        }
    }

    /// Records `amount` as the stake of `account_id`, replacing any earlier
    /// amount. It always succeeds.
    pub fn deposit(&mut self, _origin: Origin, account_id: AccountId, amount: u128) -> (r: Result<
        (),
        Error,
    >)
        requires
            old(self).wf(),
        ensures
            final(self).wf(),
            r is Ok,
            stake_set(old(self).stakes(), final(self).stakes(), account_id, amount),
            stake_of(final(self).stakes(), account_id) == amount,
            forall|k: AccountId|
                k != account_id ==> #[trigger] stake_of(final(self).stakes(), k) == stake_of(
                    old(self).stakes(),
                    k,
                ),
            final(self).config_view() == old(self).config_view(),
            final(self).current_era_view() == old(self).current_era_view(),
            final(self).active_era_view() == old(self).active_era_view(),
            final(self).force_era_view() == old(self).force_era_view(),
            final(self).sequencers_per_group_view() == old(self).sequencers_per_group_view(),
            final(self).start_sessions() == old(self).start_sessions(),
            final(self).rosters() == old(self).rosters(),
    {
        self.restake_data.set(account_id, amount);
        Ok(())
    }

    /// Sets the number of sequencers per group; only the root origin may.
    pub fn set_sequencers_per_group(&mut self, origin: Origin, sequencers_per_group: u32) -> (r:
        Result<(), Error>)
        requires
            old(self).wf(),
        ensures
            final(self).wf(),
            (r == Err::<(), Error>(Error::BadOrigin)) <==> origin != Origin::Root,
            r is Ok <==> origin == Origin::Root,
            final(self).sequencers_per_group_view() == (if origin == Origin::Root {
                sequencers_per_group
            } else {
                old(self).sequencers_per_group_view()
            }),
            final(self).config_view() == old(self).config_view(),
            final(self).current_era_view() == old(self).current_era_view(),
            final(self).active_era_view() == old(self).active_era_view(),
            final(self).force_era_view() == old(self).force_era_view(),
            final(self).start_sessions() == old(self).start_sessions(),
            final(self).rosters() == old(self).rosters(),
            final(self).stakes() == old(self).stakes(),
    {
        match origin {
            Origin::Root => {
                self.sequencers_per_group = sequencers_per_group;
                Ok(())
            },
            _ => Err(Error::BadOrigin),
        }
    }

    /// Sets the forcing mode, read at the next session notification.
    pub fn set_force_era(&mut self, mode: Forcing)
        requires
            old(self).wf(),
        ensures
            final(self).wf(),
            final(self).force_era_view() == mode,
            final(self).config_view() == old(self).config_view(),
            final(self).current_era_view() == old(self).current_era_view(),
            final(self).active_era_view() == old(self).active_era_view(),
            final(self).sequencers_per_group_view() == old(self).sequencers_per_group_view(),
            final(self).start_sessions() == old(self).start_sessions(),
            final(self).rosters() == old(self).rosters(),
            final(self).stakes() == old(self).stakes(),
    {
        self.force_era = mode;
    }

    /// The configuration fixed at deployment.
    pub fn config(&self) -> (r: Config)
        ensures
            r == self.config_view(),
    {
        self.config
    }

    /// The latest planned era.
    pub fn current_era(&self) -> (r: Option<EraIndex>)
        ensures
            r == self.current_era_view(),
    {
        self.current_era
    }

    /// The era in use, once one was activated.
    pub fn active_era(&self) -> (r: Option<ActiveEraInfo>)
        ensures
            r == self.active_era_view(),
    {
        self.active_era
    }

    /// The session at which `era` started planning, while it is in the history.
    pub fn eras_start_session_index(&self, era: EraIndex) -> (r: Option<SessionIndex>)
        ensures
            r == (if self.start_sessions().contains_key(era) {
                Some(self.start_sessions()[era])
            } else {
                None
            }),
    {
        self.eras.start_session_index(era)
    }

    /// The forcing mode.
    pub fn force_era(&self) -> (r: Forcing)
        ensures
            r == self.force_era_view(),
    {
        self.force_era
    }

    /// The number of sequencers per group.
    pub fn sequencers_per_group(&self) -> (r: u32)
        ensures
            r == self.sequencers_per_group_view(),
    {
        self.sequencers_per_group
    }

    /// The roster elected for `era`; none where no era `era` was planned.
    pub fn eras_sequencers(&self, era: EraIndex) -> (r: Vec<Sequencer>)
        ensures
            r@ == (if self.rosters().contains_key(era) {
                self.rosters()[era]
            } else {
                Seq::<Sequencer>::empty()
            }),
    {
        self.eras.sequencers(era)
    }

    /// The stake recorded for `account_id`; 0 where there is none.
    pub fn restake_data(&self, account_id: AccountId) -> (r: u128)
        ensures
            r == stake_of(self.stakes(), account_id),
    {
        self.restake_data.get(account_id)
    }
}

/// Hands the session notifications of an inner session manager on to a
/// `Pallet`: the host calls the inner manager first and passes its answer here.
pub struct SessionManager;

impl SessionManager {
    /// A new session `new_index`; `new_session` is what the inner manager
    /// returned for it, and is returned unchanged. Where it names the
    /// validators of the session, they are the candidates of the pallet's
    /// session notification.
    pub fn new_session(
        pallet: &mut Pallet,
        new_index: SessionIndex,
        new_session: Option<Vec<AccountId>>,
    ) -> (r: Option<Vec<AccountId>>)
        requires
            old(pallet).wf(),
            new_session matches Some(v) ==> v@.len() <= u32::MAX,
            new_session is Some && old(pallet).triggers_at(new_index) ==> (
            old(pallet).current_era_view() matches Some(e) ==> e < u32::MAX),
        ensures
            final(pallet).wf(),
            r == new_session,
            new_session is None ==> *final(pallet) == *old(pallet),
            new_session matches Some(v) ==> exists|roster: Option<Seq<Sequencer>>|
                old(pallet).new_session_post(final(pallet), new_index, v@, roster),
    {
        if let Some(validators) = &new_session {
            let roster = pallet.new_session(new_index, validators);
            let ghost seen = match roster {
                Some(v) => Some(v@),
                None => None,
            };
            assert(old(pallet).new_session_post(pallet, new_index, validators@, seen));
        }
        new_session
    }

    /// The genesis session `new_index`, handled as any new session.
    pub fn new_session_genesis(
        pallet: &mut Pallet,
        new_index: SessionIndex,
        new_session: Option<Vec<AccountId>>,
    ) -> (r: Option<Vec<AccountId>>)
        requires
            old(pallet).wf(),
            new_session matches Some(v) ==> v@.len() <= u32::MAX,
            new_session is Some && old(pallet).triggers_at(new_index) ==> (
            old(pallet).current_era_view() matches Some(e) ==> e < u32::MAX),
        ensures
            final(pallet).wf(),
            r == new_session,
            new_session is None ==> *final(pallet) == *old(pallet),
            new_session matches Some(v) ==> exists|roster: Option<Seq<Sequencer>>|
                old(pallet).new_session_post(final(pallet), new_index, v@, roster),
    {
        SessionManager::new_session(pallet, new_index, new_session)
    }

    /// The start of session `start_index`, once the inner manager has seen it.
    pub fn start_session(pallet: &mut Pallet, start_index: SessionIndex)
        requires
            old(pallet).wf(),
        ensures
            final(pallet).wf(),
            final(pallet).active_era_view() == (if old(pallet).activates_at(start_index) {
                Some(
                    ActiveEraInfo {
                        index: next_active_era(old(pallet).active_era_view()) as EraIndex,
                        start: None,
                    },
                )
            } else {
                old(pallet).active_era_view()
            }),
            final(pallet).config_view() == old(pallet).config_view(),
            final(pallet).current_era_view() == old(pallet).current_era_view(),
            final(pallet).force_era_view() == old(pallet).force_era_view(),
            final(pallet).sequencers_per_group_view() == old(pallet).sequencers_per_group_view(),
            final(pallet).start_sessions() == old(pallet).start_sessions(),
            final(pallet).rosters() == old(pallet).rosters(),
            final(pallet).stakes() == old(pallet).stakes(),
    {
        pallet.start_session(start_index);
    }
}

proof fn lemma_window_len(s: Set<EraIndex>, lo: int, hi: int)
    requires
        s.finite(),
        forall|k: EraIndex| s.contains(k) ==> lo <= k < hi,
    ensures
        s.len() <= if hi > lo {
            hi - lo
        } else {
            0
        },
    decreases hi - lo,
{
    if hi <= lo {
        assert(s =~= Set::<EraIndex>::empty());
    } else {
        let top = hi - 1;
        let below = s.filter(|k: EraIndex| k < top);
        s.lemma_len_filter(|k: EraIndex| k < top);
        lemma_window_len(below, lo, top);
        if 0 <= top <= u32::MAX && s.contains(top as EraIndex) {
            assert(s =~= below.insert(top as EraIndex));
        } else {
            assert(s =~= below);
        }
    }
}

/// Bounded history: in every well-formed state, the history of era starts
/// holds an entry for exactly the latest `history_depth` planned eras (all of
/// them while there are fewer), so never more than `history_depth` entries,
/// and none before the first era is planned.
pub proof fn lemma_history_bounded(p: &Pallet)
    requires
        p.wf(),
    ensures
        p.start_sessions().dom().finite(),
        p.start_sessions().dom().len() <= p.config_view().history_depth,
        match p.current_era_view() {
            None => p.start_sessions().dom() == Set::<EraIndex>::empty(),
            Some(e) => history_exact(p.start_sessions(), e, p.config_view().history_depth),
        },
{
    p.eras.lemma_finite();
    let d = p.config_view().history_depth as int;
    match p.current_era_view() {
        None => {
            assert(p.start_sessions().dom() =~= Set::<EraIndex>::empty());
        },
        Some(e) => {
            assert forall|k: EraIndex| p.start_sessions().dom().contains(k) implies e - d < k < e
                + 1 by {
                assert(p.start_sessions().contains_key(k));
            }
            lemma_window_len(p.start_sessions().dom(), e - d + 1, e + 1);
        },
    }
}

/// Monotonicity: a session notification either leaves the planned era as it
/// was, returning no roster, or plans the very next era (era 0 where none was
/// planned), returning its roster; the era counter never decreases or skips.
pub proof fn lemma_era_step(
    pre: &Pallet,
    post: &Pallet,
    session_index: SessionIndex,
    candidates: Seq<AccountId>,
    r: Option<Seq<Sequencer>>,
)
    requires
        pre.wf(),
        pre.current_era_view() matches Some(e) ==> e < u32::MAX,
        pre.new_session_post(post, session_index, candidates, r),
    ensures
        r is Some ==> post.current_era_view() == Some(next_era(pre.current_era_view()) as EraIndex),
        r is None ==> post.current_era_view() == pre.current_era_view(),
        pre.current_era_view() matches Some(o) ==> (post.current_era_view() matches Some(n) && (n
            == o || n == o + 1)),
        pre.current_era_view() is None ==> post.current_era_view() == Some(0u32),
{
}

/// Forcing: once an era is planned, `ForceNone` never plans another, however
/// many sessions pass; `ForceAlways` plans one at every session notification.
pub proof fn lemma_forcing(
    pre: &Pallet,
    post: &Pallet,
    session_index: SessionIndex,
    candidates: Seq<AccountId>,
    r: Option<Seq<Sequencer>>,
)
    requires
        pre.new_session_post(post, session_index, candidates, r),
    ensures
        (pre.current_era_view() is Some && pre.force_era_view() == Forcing::ForceNone) ==> (r is None
            && post.current_era_view() == pre.current_era_view()),
        pre.force_era_view() == Forcing::ForceAlways ==> r is Some,
{
}

/// The active era is never ahead of the planned one: in every well-formed
/// state, an active era implies a planned era with an index at least as large.
pub proof fn lemma_active_not_ahead(p: &Pallet)
    requires
        p.wf(),
    ensures
        p.active_era_view() matches Some(a) ==> (p.current_era_view() matches Some(e) && a.index
            <= e),
{
}

} // verus!
