//! The era history ledger: when each era started planning, and its roster.
use std::collections::BTreeMap;
use vstd::prelude::*;
use crate::types::{EraIndex, Sequencer, SessionIndex};

verus! {

broadcast use vstd::laws_cmp::group_laws_cmp, vstd::std_specs::btree::group_btree_axioms;

/// Copy of a roster, entry by entry.
pub fn copy_roster(v: &Vec<Sequencer>) -> (r: Vec<Sequencer>)
    ensures
        r@ == v@,
{
    let mut out: Vec<Sequencer> = Vec::new();
    let mut i: usize = 0;
    while i < v.len()
        invariant
            i <= v@.len(),
            out@ == v@.subrange(0, i as int),
        decreases v@.len() - i,
    {
        out.push(v[i]);
        i += 1;
        assert(out@ =~= v@.subrange(0, i as int));
    }
    assert(v@.subrange(0, v@.len() as int) =~= v@);
    out
}

/// Era related information: the session at which each recent era started
/// planning, and the sequencers elected for each era.
pub struct EraInfo {
    start_session_index: BTreeMap<EraIndex, SessionIndex>,
    sequencers: BTreeMap<EraIndex, Vec<Sequencer>>,
}

impl EraInfo {
    /// The session at which each recorded era started planning.
    pub closed spec fn start_sessions(&self) -> Map<EraIndex, SessionIndex> {
        self.start_session_index@
    }

    /// The roster stored for each era.
    pub closed spec fn rosters(&self) -> Map<EraIndex, Seq<Sequencer>> {
        self.sequencers@.map_values(|v: Vec<Sequencer>| v@)
    }

    /// Only finitely many eras are recorded.
    pub proof fn lemma_finite(&self)
        ensures
            self.start_sessions().dom().finite(),
    {
    }

    /// A ledger with no era.
    pub fn new() -> (r: Self)
        ensures
            r.start_sessions() == Map::<EraIndex, SessionIndex>::empty(),
            r.rosters() == Map::<EraIndex, Seq<Sequencer>>::empty(),
    {
        let r = EraInfo { start_session_index: BTreeMap::new(), sequencers: BTreeMap::new() };
        assert(r.rosters() =~= Map::<EraIndex, Seq<Sequencer>>::empty());
        r
    }

    /// The session at which `era` started planning, while it is recorded.
    pub fn start_session_index(&self, era: EraIndex) -> (r: Option<SessionIndex>)
        ensures
            r == (if self.start_sessions().contains_key(era) {
                Some(self.start_sessions()[era])
            } else {
                None
            }),
    {
        match self.start_session_index.get(&era) {
            Some(s) => Some(*s),
            None => None,
        }
    }

    /// Records that `era` started planning at session `session`.
    pub fn set_start_session_index(&mut self, era: EraIndex, session: SessionIndex)
        ensures
            final(self).start_sessions() == old(self).start_sessions().insert(era, session),
            final(self).rosters() == old(self).rosters(),
    {
        self.start_session_index.insert(era, session);
    }

    /// Clears all era information for `era`: its start session is forgotten.
    /// Its roster stays.
    pub fn clear_era_information(&mut self, era: EraIndex)
        ensures
            final(self).start_sessions() == old(self).start_sessions().remove(era),
            final(self).rosters() == old(self).rosters(),
    {
        self.start_session_index.remove(&era);
    }

    /// Stores the sequencers elected for `era`.
    pub fn set_sequencer(&mut self, era: EraIndex, sequencers: Vec<Sequencer>)
        ensures
            final(self).start_sessions() == old(self).start_sessions(),
            final(self).rosters() == old(self).rosters().insert(era, sequencers@),
    {
        let ghost s = sequencers@;
        self.sequencers.insert(era, sequencers);
        assert(self.rosters() =~= old(self).rosters().insert(era, s));
    }

    /// The sequencers elected for `era`; none where no roster is stored.
    pub fn sequencers(&self, era: EraIndex) -> (r: Vec<Sequencer>)
        ensures
            r@ == (if self.rosters().contains_key(era) {
                self.rosters()[era]
            } else {
                Seq::<Sequencer>::empty()
            }),
    {
        match self.sequencers.get(&era) {
            Some(v) => copy_roster(v),
            None => Vec::new(),
        }
    }
}

} // verus!
