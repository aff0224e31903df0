//! The stake registry and the stake-weighted election of sequencers.
use vstd::prelude::*;
use crate::types::{AccountId, Sequencer};

verus! {

/// Stake recorded for `who` in the entries `reg`, or 0 where `who` has none.
pub open spec fn stake_of(reg: Seq<(AccountId, u128)>, who: AccountId) -> u128
    decreases reg.len(),
{
    if reg.len() == 0 {
        0
    } else if reg[0].0 == who {
        reg[0].1
    } else {
        stake_of(reg.drop_first(), who)
    }
}

/// Sum of all the stakes in `reg`.
pub open spec fn total_stake(reg: Seq<(AccountId, u128)>) -> nat
    decreases reg.len(),
{
    if reg.len() == 0 {
        0
    } else {
        reg[0].1 as nat + total_stake(reg.drop_first())
    }
}

/// Average stake over every entry of `reg`, rounded down; 0 for no entry.
pub open spec fn average_stake(reg: Seq<(AccountId, u128)>) -> nat {
    if reg.len() == 0 {
        0
    } else {
        total_stake(reg) / reg.len()
    }
}

/// Two thirds of `avg`, rounded down; 1 where twice `avg` is under 3.
pub open spec fn threshold_of(avg: nat) -> nat {
    if avg * 2 >= 3 {
        (avg * 2) / 3
    } else {
        1
    }
}

/// Whether `acc` holds an entry for `who`.
pub open spec fn has_id(acc: Seq<Sequencer>, who: AccountId) -> bool {
    exists|i: int| 0 <= i < acc.len() && #[trigger] acc[i].0 == who
}

/// The candidates whose stake reaches `th`, in their order, each with its stake.
pub open spec fn passing(cands: Seq<AccountId>, reg: Seq<(AccountId, u128)>, th: nat) -> Seq<
    Sequencer,
>
    decreases cands.len(),
{
    if cands.len() == 0 {
        seq![]
    } else {
        let rest = passing(cands.drop_first(), reg, th);
        if stake_of(reg, cands[0]) >= th {
            seq![(cands[0], stake_of(reg, cands[0]))] + rest
        } else {
            rest
        }
    }
}

/// `acc` extended, while it is shorter than `min`, with the candidates of
/// `rest` that it lacks, in their order.
pub open spec fn backfill(
    rest: Seq<AccountId>,
    acc: Seq<Sequencer>,
    reg: Seq<(AccountId, u128)>,
    min: nat,
) -> Seq<Sequencer>
    decreases rest.len(),
{
    if rest.len() == 0 || acc.len() >= min {
        acc
    } else if has_id(acc, rest[0]) {
        backfill(rest.drop_first(), acc, reg, min)
    } else {
        backfill(rest.drop_first(), acc.push((rest[0], stake_of(reg, rest[0]))), reg, min)
    }
}

/// The roster that the election gives for `cands` over the registry `reg`.
pub open spec fn elect_spec(cands: Seq<AccountId>, reg: Seq<(AccountId, u128)>, min: nat) -> Seq<
    Sequencer,
> {
    backfill(cands, passing(cands, reg, threshold_of(average_stake(reg))), reg, min)
}

/// Whether no account occurs twice in `s`.
pub open spec fn keys_unique(s: Seq<(AccountId, u128)>) -> bool {
    forall|i: int, j: int| 0 <= i < j < s.len() ==> s[i].0 != s[j].0
}

/// Whether `new` is `old` with the stake of `who` set to `amount`: the entry
/// of `who` is replaced in place, or one is appended where it had none.
pub open spec fn stake_set(
    old: Seq<(AccountId, u128)>,
    new: Seq<(AccountId, u128)>,
    who: AccountId,
    amount: u128,
) -> bool {
    if exists|j: int| 0 <= j < old.len() && #[trigger] old[j].0 == who {
        forall|j: int|
            0 <= j < old.len() && #[trigger] old[j].0 == who ==> new == old.update(
                j,
                (who, amount),
            )
    } else {
        new == old.push((who, amount))
    }
}

/// The staked amount of every account that has deposited, in order of first deposit.
pub struct StakeRegistry {
    entries: Vec<(AccountId, u128)>,
}

impl View for StakeRegistry {
    type V = Seq<(AccountId, u128)>;

    closed spec fn view(&self) -> Seq<(AccountId, u128)> {
        self.entries@
    }
}

proof fn lemma_total_split(s: Seq<(AccountId, u128)>, i: int)
    requires
        0 <= i < s.len(),
    ensures
        total_stake(s.subrange(i, s.len() as int)) == s[i].1 as nat + total_stake(
            s.subrange(i + 1, s.len() as int),
        ),
{
    assert(s.subrange(i, s.len() as int).drop_first() =~= s.subrange(i + 1, s.len() as int));
}

proof fn lemma_stake_split(s: Seq<(AccountId, u128)>, i: int, who: AccountId)
    requires
        0 <= i < s.len(),
    ensures
        stake_of(s.subrange(i, s.len() as int), who) == if s[i].0 == who {
            s[i].1
        } else {
            stake_of(s.subrange(i + 1, s.len() as int), who)
        },
{
    assert(s.subrange(i, s.len() as int).drop_first() =~= s.subrange(i + 1, s.len() as int));
}

proof fn lemma_total_bound(s: Seq<(AccountId, u128)>)
    ensures
        total_stake(s) <= s.len() * u128::MAX,
    decreases s.len(),
{
    if s.len() > 0 {
        lemma_total_bound(s.drop_first());
        assert(total_stake(s) <= s.len() * u128::MAX) by (nonlinear_arith)
            requires
                total_stake(s) == s[0].1 as nat + total_stake(s.drop_first()),
                total_stake(s.drop_first()) <= s.drop_first().len() * u128::MAX,
                s.drop_first().len() + 1 == s.len(),
                s[0].1 <= u128::MAX,
        ;
    }
}

proof fn lemma_stake_absent(s: Seq<(AccountId, u128)>, who: AccountId)
    requires
        forall|j: int| 0 <= j < s.len() ==> s[j].0 != who,
    ensures
        stake_of(s, who) == 0,
    decreases s.len(),
{
    if s.len() > 0 {
        lemma_stake_absent(s.drop_first(), who);
    }
}

proof fn lemma_stake_at(s: Seq<(AccountId, u128)>, i: int)
    requires
        0 <= i < s.len(),
        keys_unique(s),
    ensures
        stake_of(s, s[i].0) == s[i].1,
    decreases s.len(),
{
    if i > 0 {
        lemma_stake_at(s.drop_first(), i - 1);
    }
}

/// Where `new` agrees with `old` at every position of an account other than
/// `who`, and both have unique keys, they agree on the stake of every such account.
proof fn lemma_stake_frame(old: Seq<(AccountId, u128)>, new: Seq<(AccountId, u128)>, who: AccountId)
    requires
        keys_unique(old),
        keys_unique(new),
        old.len() <= new.len(),
        forall|j: int| 0 <= j < old.len() && old[j].0 != who ==> new[j] == old[j],
        forall|j: int| 0 <= j < new.len() && new[j].0 != who ==> j < old.len() && old[j].0 != who,
    ensures
        forall|k: AccountId| k != who ==> #[trigger] stake_of(new, k) == stake_of(old, k),
{
    assert forall|k: AccountId| k != who implies #[trigger] stake_of(new, k) == stake_of(old, k) by {
        if exists|j: int| 0 <= j < old.len() && old[j].0 == k {
            let j = choose|j: int| 0 <= j < old.len() && old[j].0 == k;
            lemma_stake_at(old, j);
            lemma_stake_at(new, j);
        } else if exists|j: int| 0 <= j < new.len() && new[j].0 == k {
            let j = choose|j: int| 0 <= j < new.len() && new[j].0 == k;
            assert(old[j].0 == k);
        } else {
            lemma_stake_absent(old, k);
            lemma_stake_absent(new, k);
        }
    }
}

impl StakeRegistry {
    /// No account has two entries.
    pub open spec fn wf(&self) -> bool {
        keys_unique(self@)
    }

    /// An empty registry.
    pub fn new() -> (r: Self)
        ensures
            r.wf(),
            r@ == Seq::<(AccountId, u128)>::empty(),
    {
        StakeRegistry { entries: Vec::new() }
    }

    /// Number of accounts with a recorded stake.
    pub fn len(&self) -> (r: usize)
        ensures
            r == self@.len(),
    {
        self.entries.len()
    }

    /// Position of the entry of `who`, if it has one.
    fn position(&self, who: AccountId) -> (r: Option<usize>)
        ensures
            match r {
                Some(i) => i < self@.len() && self@[i as int].0 == who,
                None => forall|j: int| 0 <= j < self@.len() ==> self@[j].0 != who,
            },
    {
        let mut i: usize = 0;
        while i < self.entries.len()
            invariant
                i <= self@.len(),
                forall|j: int| 0 <= j < i ==> self@[j].0 != who,
            decreases self@.len() - i,
        {
            if self.entries[i].0 == who {
                return Some(i);
            }
            i += 1;
        }
        None
    }

    /// Stake of `who`; 0 where it has none.
    pub fn get(&self, who: AccountId) -> (r: u128)
        ensures
            r == stake_of(self@, who),
    {
        let mut i: usize = 0;
        let n = self.entries.len();
        assert(self@.subrange(0, n as int) =~= self@);
        while i < n
            invariant
                i <= n == self@.len(),
                stake_of(self@, who) == stake_of(self@.subrange(i as int, n as int), who),
            decreases n - i,
        {
            proof {
                lemma_stake_split(self@, i as int, who);
            }
            if self.entries[i].0 == who {
                return self.entries[i].1;
            }
            i += 1;
        }
        0
    }

    /// Average of all recorded stakes, rounded down; 0 where there is none.
    ///
    /// The sum is kept as a quotient and a remainder by the number of
    /// entries, so no intermediate value exceeds the largest stake.
    pub fn average(&self) -> (r: u128)
        ensures
            r == average_stake(self@),
    {
        let n = self.entries.len();
        if n == 0 {
            return 0;
        }
        let nn = n as u128;
        let mut q: u128 = 0;
        let mut rem: u128 = 0;
        let mut i: usize = 0;
        proof {
            lemma_total_bound(self@);
            assert(self@.subrange(0, n as int) =~= self@);
        }
        while i < n
            invariant
                i <= n == self@.len(),
                nn == n,
                n > 0,
                rem < nn,
                q * nn + rem + total_stake(self@.subrange(i as int, n as int)) == total_stake(
                    self@,
                ),
                total_stake(self@) <= nn * u128::MAX,
            decreases n - i,
        {
            let s = self.entries[i].1;
            proof {
                lemma_total_split(self@, i as int);
            }
            let sq = s / nn;
            let sr = s % nn;
            let ghost t = total_stake(self@);
            let ghost rest = total_stake(self@.subrange(i + 1, n as int));
            proof {
                assert(sq * nn + sr == s) by (nonlinear_arith)
                    requires
                        sq == s / nn,
                        sr == s % nn,
                        nn > 0,
                ;
                assert(q + sq <= u128::MAX) by (nonlinear_arith)
                    requires
                        q * nn + rem + s + rest == t,
                        sq * nn + sr == s,
                        t <= nn * u128::MAX,
                        rem >= 0,
                        sr >= 0,
                        rest >= 0,
                        nn > 0,
                ;
            }
            let ghost q0 = q;
            let ghost rem0 = rem;
            q = q + sq;
            rem = rem + sr;
            assert(q * nn + rem + rest == t) by (nonlinear_arith)
                requires
                    q == q0 + sq,
                    rem == rem0 + sr,
                    q0 * nn + rem0 + s + rest == t,
                    sq * nn + sr == s,
            ;
            if rem >= nn {
                proof {
                    assert(q + 1 <= u128::MAX) by (nonlinear_arith)
                        requires
                            q * nn + rem + rest == t,
                            rem >= nn,
                            t <= nn * u128::MAX,
                            rest >= 0,
                            nn > 0,
                    ;
                }
                let ghost q1 = q;
                let ghost rem1 = rem;
                rem = rem - nn;
                q = q + 1;
                assert(q * nn + rem + rest == t) by (nonlinear_arith)
                    requires
                        q == q1 + 1,
                        rem == rem1 - nn,
                        q1 * nn + rem1 + rest == t,
                ;
            }
            i += 1;
        }
        proof {
            assert(self@.subrange(n as int, n as int) =~= Seq::<(AccountId, u128)>::empty());
            vstd::arithmetic::div_mod::lemma_fundamental_div_mod_converse(
                total_stake(self@) as int,
                n as int,
                q as int,
                rem as int,
            );
        }
        q
    }

    /// Records `amount` as the stake of `who`, replacing any earlier amount.
    pub fn set(&mut self, who: AccountId, amount: u128)
        requires
            old(self).wf(),
        ensures
            final(self).wf(),
            stake_set(old(self)@, final(self)@, who, amount),
            stake_of(final(self)@, who) == amount,
            forall|k: AccountId|
                k != who ==> #[trigger] stake_of(final(self)@, k) == stake_of(old(self)@, k),
    {
        match self.position(who) {
            Some(i) => {
                self.entries.set(i, (who, amount));
                proof {
                    assert(keys_unique(self@)) by {
                        assert forall|a: int, b: int| 0 <= a < b < self@.len() implies self@[a].0
                            != self@[b].0 by {
                            assert(old(self)@[a].0 != old(self)@[b].0);
                        }
                    }
                    lemma_stake_at(self@, i as int);
                    lemma_stake_frame(old(self)@, self@, who);
                    assert forall|j: int|
                        0 <= j < old(self)@.len() && old(self)@[j].0 == who implies j
                        == i as int by {
                        if j != i as int {
                            assert(old(self)@[j].0 != old(self)@[i as int].0);
                        }
                    }
                }
            },
            None => {
                self.entries.push((who, amount));
                proof {
                    assert(keys_unique(self@)) by {
                        assert forall|a: int, b: int| 0 <= a < b < self@.len() implies self@[a].0
                            != self@[b].0 by {
                            if b < old(self)@.len() {
                                assert(old(self)@[a].0 != old(self)@[b].0);
                            } else {
                                assert(old(self)@[a].0 != who);
                            }
                        }
                    }
                    lemma_stake_at(self@, old(self)@.len() as int);
                    lemma_stake_frame(old(self)@, self@, who);
                }
            },
        }
    }
}

/// Two thirds of `avg`, rounded down, worked out without overflow; 1 where
/// twice `avg` is under 3.
fn threshold(avg: u128) -> (r: u128)
    ensures
        r == threshold_of(avg as nat),
{
    if avg >= 2 {
        let q = avg / 3;
        let rem = avg % 3;
        proof {
            let a = avg as int;
            assert(a == 3 * q + rem && 0 <= rem < 3);
            assert((a * 2) / 3 == q * 2 + (rem * 2) / 3) by (nonlinear_arith)
                requires
                    a == 3 * q + rem,
                    0 <= rem < 3,
                    q >= 0,
            ;
        }
        q * 2 + rem * 2 / 3
    } else {
        1
    }
}

/// Whether `acc` already holds an entry for `who`.
fn contains_id(acc: &Vec<Sequencer>, who: AccountId) -> (r: bool)
    ensures
        r == has_id(acc@, who),
{
    let mut i: usize = 0;
    while i < acc.len()
        invariant
            i <= acc@.len(),
            forall|j: int| 0 <= j < i ==> acc@[j].0 != who,
        decreases acc@.len() - i,
    {
        if acc[i].0 == who {
            return true;
        }
        i += 1;
    }
    false
}

/// Elects the sequencers of an era among `candidates`.
///
/// The bar is two thirds of the average stake over every entry of `stakes`
/// (see `threshold_of`). The candidates that reach it come first, in their
/// order; while the roster is shorter than `min_count`, the remaining
/// candidates follow in their order, each with its stake.
pub fn elect(candidates: &Vec<AccountId>, stakes: &StakeRegistry, min_count: u32) -> (r: Vec<
    Sequencer,
>)
    requires
        stakes.wf(),
    ensures
        r@ == elect_spec(candidates@, stakes@, min_count as nat),
{
    let average = stakes.average();
    let th = threshold(average);
    let ghost th_s = threshold_of(average_stake(stakes@));
    let ghost cands = candidates@;
    let ghost reg = stakes@;
    let n = candidates.len();
    let mut sequencers: Vec<Sequencer> = Vec::new();
    let mut i: usize = 0;
    assert(cands.subrange(0, n as int) =~= cands);
    assert(sequencers@ + passing(cands, reg, th_s) =~= passing(cands, reg, th_s));
    while i < n
        invariant
            i <= n == cands.len(),
            cands == candidates@,
            reg == stakes@,
            th == th_s,
            passing(cands, reg, th_s) == sequencers@ + passing(
                cands.subrange(i as int, n as int),
                reg,
                th_s,
            ),
        decreases n - i,
    {
        let who = candidates[i];
        let stake = stakes.get(who);
        let ghost before = sequencers@;
        let ghost rest = passing(cands.subrange(i + 1, n as int), reg, th_s);
        assert(cands.subrange(i as int, n as int).drop_first() =~= cands.subrange(
            i + 1,
            n as int,
        ));
        if stake >= th {
            sequencers.push((who, stake));
            assert(before + (seq![(who, stake)] + rest) =~= sequencers@ + rest);
        } else {
            assert(before + rest =~= sequencers@ + rest);
        }
        i += 1;
    }
    assert(cands.subrange(n as int, n as int) =~= Seq::<AccountId>::empty());
    assert(sequencers@ + Seq::<Sequencer>::empty() =~= sequencers@);
    let mut j: usize = 0;
    while j < n && sequencers.len() < min_count as usize
        invariant
            j <= n == cands.len(),
            cands == candidates@,
            reg == stakes@,
            elect_spec(cands, reg, min_count as nat) == backfill(
                cands.subrange(j as int, n as int),
                sequencers@,
                reg,
                min_count as nat,
            ),
        decreases n - j,
    {
        let who = candidates[j];
        assert(cands.subrange(j as int, n as int).drop_first() =~= cands.subrange(
            j + 1,
            n as int,
        ));
        if !contains_id(&sequencers, who) {
            let stake = stakes.get(who);
            sequencers.push((who, stake));
        }
        j += 1;
    }
    if j == n {
        assert(cands.subrange(n as int, n as int) =~= Seq::<AccountId>::empty());
    }
    sequencers
}

/// Number of positions of `rest` whose account has no entry in `acc`.
spec fn count_absent(rest: Seq<AccountId>, acc: Seq<Sequencer>) -> nat
    decreases rest.len(),
{
    if rest.len() == 0 {
        0
    } else {
        (if has_id(acc, rest[0]) {
            0nat
        } else {
            1nat
        }) + count_absent(rest.drop_first(), acc)
    }
}

proof fn lemma_has_id_push(acc: Seq<Sequencer>, x: Sequencer, who: AccountId)
    ensures
        has_id(acc.push(x), who) == (has_id(acc, who) || x.0 == who),
{
    if has_id(acc, who) {
        let i = choose|i: int| 0 <= i < acc.len() && #[trigger] acc[i].0 == who;
        assert(acc.push(x)[i].0 == who);
    }
    if x.0 == who {
        assert(acc.push(x)[acc.len() as int].0 == who);
    }
    if has_id(acc.push(x), who) {
        let i = choose|i: int| 0 <= i < acc.len() + 1 && #[trigger] acc.push(x)[i].0 == who;
        if i < acc.len() {
            assert(acc[i].0 == who);
        }
    }
}

proof fn lemma_count_absent_push(rest: Seq<AccountId>, acc: Seq<Sequencer>, x: Sequencer)
    ensures
        count_absent(rest, acc.push(x)) <= count_absent(rest, acc),
        (forall|j: int| 0 <= j < rest.len() ==> rest[j] != x.0) ==> count_absent(
            rest,
            acc.push(x),
        ) == count_absent(rest, acc),
    decreases rest.len(),
{
    if rest.len() > 0 {
        lemma_has_id_push(acc, x, rest[0]);
        lemma_count_absent_push(rest.drop_first(), acc, x);
        if forall|j: int| 0 <= j < rest.len() ==> rest[j] != x.0 {
            assert(forall|j: int|
                0 <= j < rest.drop_first().len() ==> rest.drop_first()[j] == rest[j + 1]);
        }
    }
}

proof fn lemma_backfill_len(rest: Seq<AccountId>, acc: Seq<Sequencer>, reg: Seq<(AccountId, u128)>, min: nat)
    ensures
        backfill(rest, acc, reg, min).len() <= acc.len() + count_absent(rest, acc),
        rest.no_duplicates() ==> backfill(rest, acc, reg, min).len() >= if acc.len()
            + count_absent(rest, acc) < min {
            acc.len() + count_absent(rest, acc)
        } else {
            min
        },
        acc.len() >= min ==> backfill(rest, acc, reg, min) == acc,
    decreases rest.len(),
{
    if rest.len() > 0 && acc.len() < min {
        let tail = rest.drop_first();
        assert(rest.no_duplicates() ==> tail.no_duplicates()) by {
            if rest.no_duplicates() {
                assert forall|i: int, j: int|
                    0 <= i < tail.len() && 0 <= j < tail.len() && i != j implies tail[i]
                    != tail[j] by {
                    assert(tail[i] == rest[i + 1] && tail[j] == rest[j + 1]);
                }
            }
        }
        if has_id(acc, rest[0]) {
            lemma_backfill_len(tail, acc, reg, min);
        } else {
            let x = (rest[0], stake_of(reg, rest[0]));
            lemma_backfill_len(tail, acc.push(x), reg, min);
            lemma_count_absent_push(tail, acc, x);
            if rest.no_duplicates() {
                assert forall|j: int| 0 <= j < tail.len() implies tail[j] != x.0 by {
                    assert(tail[j] == rest[j + 1]);
                }
            }
        }
    }
}

proof fn lemma_passing_entries(cands: Seq<AccountId>, reg: Seq<(AccountId, u128)>, th: nat)
    ensures
        forall|i: int|
            0 <= i < passing(cands, reg, th).len() ==> {
                let e = #[trigger] passing(cands, reg, th)[i];
                &&& stake_of(reg, e.0) >= th
                &&& e.1 == stake_of(reg, e.0)
                &&& cands.contains(e.0)
            },
        passing(cands, reg, th).len() <= cands.len(),
        forall|j: int|
            0 <= j < cands.len() && stake_of(reg, cands[j]) >= th ==> has_id(
                passing(cands, reg, th),
                #[trigger] cands[j],
            ),
    decreases cands.len(),
{
    if cands.len() > 0 {
        let tail = cands.drop_first();
        lemma_passing_entries(tail, reg, th);
        let p = passing(cands, reg, th);
        let q = passing(tail, reg, th);
        assert forall|i: int| 0 <= i < q.len() implies cands.contains(#[trigger] q[i].0) by {
            let k = choose|k: int| 0 <= k < tail.len() && tail[k] == q[i].0;
            assert(cands[k + 1] == q[i].0);
        }
        assert forall|j: int|
            0 <= j < cands.len() && stake_of(reg, cands[j]) >= th implies has_id(
            p,
            #[trigger] cands[j],
        ) by {
            if j > 0 {
                assert(tail[j - 1] == cands[j]);
                let k = choose|k: int| 0 <= k < q.len() && #[trigger] q[k].0 == cands[j];
                if stake_of(reg, cands[0]) >= th {
                    assert(p[k + 1] == q[k]);
                } else {
                    assert(p[k] == q[k]);
                }
            } else {
                assert(p[0].0 == cands[0]);
            }
        }
        if stake_of(reg, cands[0]) >= th {
            assert forall|i: int| 0 <= i < p.len() implies {
                let e = #[trigger] p[i];
                &&& stake_of(reg, e.0) >= th
                &&& e.1 == stake_of(reg, e.0)
                &&& cands.contains(e.0)
            } by {
                if i > 0 {
                    assert(p[i] == q[i - 1]);
                } else {
                    assert(cands[0] == p[0].0);
                }
            }
        }
    }
}

proof fn lemma_count_absent_passing(
    cands: Seq<AccountId>,
    acc: Seq<Sequencer>,
    reg: Seq<(AccountId, u128)>,
    th: nat,
)
    requires
        forall|j: int|
            0 <= j < cands.len() ==> (has_id(acc, #[trigger] cands[j]) <==> stake_of(
                reg,
                cands[j],
            ) >= th),
    ensures
        count_absent(cands, acc) + passing(cands, reg, th).len() == cands.len(),
    decreases cands.len(),
{
    if cands.len() > 0 {
        let tail = cands.drop_first();
        assert forall|j: int|
            0 <= j < tail.len() implies (has_id(acc, #[trigger] tail[j]) <==> stake_of(
            reg,
            tail[j],
        ) >= th) by {
            assert(tail[j] == cands[j + 1]);
        }
        assert(has_id(acc, cands[0]) <==> stake_of(reg, cands[0]) >= th);
        lemma_count_absent_passing(tail, acc, reg, th);
    }
}

proof fn lemma_backfill_drawn(
    rest: Seq<AccountId>,
    acc: Seq<Sequencer>,
    reg: Seq<(AccountId, u128)>,
    min: nat,
    cands: Seq<AccountId>,
)
    requires
        forall|i: int| 0 <= i < acc.len() ==> cands.contains(#[trigger] acc[i].0),
        forall|j: int| 0 <= j < rest.len() ==> cands.contains(#[trigger] rest[j]),
    ensures
        forall|i: int|
            0 <= i < backfill(rest, acc, reg, min).len() ==> cands.contains(
                #[trigger] backfill(rest, acc, reg, min)[i].0,
            ),
    decreases rest.len(),
{
    if rest.len() > 0 && acc.len() < min {
        let tail = rest.drop_first();
        assert forall|j: int| 0 <= j < tail.len() implies cands.contains(#[trigger] tail[j]) by {
            assert(tail[j] == rest[j + 1]);
        }
        assert(cands.contains(rest[0]));
        if has_id(acc, rest[0]) {
            lemma_backfill_drawn(tail, acc, reg, min, cands);
            assert(backfill(rest, acc, reg, min) == backfill(tail, acc, reg, min));
        } else {
            let x = (rest[0], stake_of(reg, rest[0]));
            let acc2 = acc.push(x);
            assert forall|i: int| 0 <= i < acc2.len() implies cands.contains(#[trigger] acc2[i].0) by {
                if i < acc.len() {
                    assert(acc2[i] == acc[i]);
                }
            }
            lemma_backfill_drawn(tail, acc2, reg, min, cands);
            assert(backfill(rest, acc, reg, min) == backfill(tail, acc2, reg, min));
        }
    } else {
        assert(backfill(rest, acc, reg, min) == acc);
    }
}

/// The size of an election's roster: for `n` candidates and a minimum of `m`,
/// it never holds more than `n` sequencers, each of them a candidate with the
/// stake that the registry records for it; where no candidate occurs twice, it
/// holds at least the smaller of `m` and `n`.
pub proof fn lemma_roster_bounds(cands: Seq<AccountId>, reg: Seq<(AccountId, u128)>, m: nat)
    ensures
        elect_spec(cands, reg, m).len() <= cands.len(),
        forall|i: int|
            0 <= i < elect_spec(cands, reg, m).len() ==> {
                let e = #[trigger] elect_spec(cands, reg, m)[i];
                &&& cands.contains(e.0)
                &&& e.1 == stake_of(reg, e.0)
            },
        cands.no_duplicates() ==> elect_spec(cands, reg, m).len() >= if m < cands.len() {
            m
        } else {
            cands.len() as nat
        },
{
    let th = threshold_of(average_stake(reg));
    let p = passing(cands, reg, th);
    lemma_passing_entries(cands, reg, th);
    assert forall|j: int|
        0 <= j < cands.len() implies (has_id(p, #[trigger] cands[j]) <==> stake_of(
        reg,
        cands[j],
    ) >= th) by {
        if has_id(p, cands[j]) {
            let k = choose|k: int| 0 <= k < p.len() && #[trigger] p[k].0 == cands[j];
            assert(stake_of(reg, p[k].0) >= th);
        }
    }
    lemma_count_absent_passing(cands, p, reg, th);
    lemma_backfill_len(cands, p, reg, m);
    assert forall|j: int| 0 <= j < cands.len() implies cands.contains(#[trigger] cands[j]) by {
    }
    lemma_backfill_drawn(cands, p, reg, m, cands);
    lemma_backfill_stakes(cands, p, reg, m);
}

proof fn lemma_backfill_stakes(
    rest: Seq<AccountId>,
    acc: Seq<Sequencer>,
    reg: Seq<(AccountId, u128)>,
    min: nat,
)
    requires
        forall|i: int| 0 <= i < acc.len() ==> (#[trigger] acc[i]).1 == stake_of(reg, acc[i].0),
    ensures
        forall|i: int|
            0 <= i < backfill(rest, acc, reg, min).len() ==> (#[trigger] backfill(
                rest,
                acc,
                reg,
                min,
            )[i]).1 == stake_of(reg, backfill(rest, acc, reg, min)[i].0),
    decreases rest.len(),
{
    if rest.len() > 0 && acc.len() < min {
        let tail = rest.drop_first();
        if has_id(acc, rest[0]) {
            lemma_backfill_stakes(tail, acc, reg, min);
            assert(backfill(rest, acc, reg, min) == backfill(tail, acc, reg, min));
        } else {
            let x = (rest[0], stake_of(reg, rest[0]));
            let acc2 = acc.push(x);
            assert forall|i: int| 0 <= i < acc2.len() implies (#[trigger] acc2[i]).1 == stake_of(
                reg,
                acc2[i].0,
            ) by {
                if i < acc.len() {
                    assert(acc2[i] == acc[i]);
                }
            }
            lemma_backfill_stakes(tail, acc2, reg, min);
            assert(backfill(rest, acc, reg, min) == backfill(tail, acc2, reg, min));
        }
    } else {
        assert(backfill(rest, acc, reg, min) == acc);
    }
}

/// Whether no account occurs twice in the roster `s`.
pub open spec fn ids_distinct(s: Seq<Sequencer>) -> bool {
    forall|i: int, j: int| 0 <= i < j < s.len() ==> s[i].0 != s[j].0
}

/// Whether `reg` holds an entry for `who`.
pub open spec fn has_account(reg: Seq<(AccountId, u128)>, who: AccountId) -> bool {
    exists|i: int| 0 <= i < reg.len() && #[trigger] reg[i].0 == who
}

proof fn lemma_passing_distinct(cands: Seq<AccountId>, reg: Seq<(AccountId, u128)>, th: nat)
    requires
        cands.no_duplicates(),
    ensures
        ids_distinct(passing(cands, reg, th)),
    decreases cands.len(),
{
    if cands.len() > 0 {
        let tail = cands.drop_first();
        assert(tail.no_duplicates()) by {
            assert forall|i: int, j: int|
                0 <= i < tail.len() && 0 <= j < tail.len() && i != j implies tail[i] != tail[j] by {
                assert(tail[i] == cands[i + 1] && tail[j] == cands[j + 1]);
            }
        }
        lemma_passing_distinct(tail, reg, th);
        lemma_passing_entries(tail, reg, th);
        let q = passing(tail, reg, th);
        let p = passing(cands, reg, th);
        if stake_of(reg, cands[0]) >= th {
            assert forall|i: int, j: int| 0 <= i < j < p.len() implies p[i].0 != p[j].0 by {
                if i == 0 {
                    assert(p[j] == q[j - 1]);
                    assert(tail.contains(q[j - 1].0));
                    let k = choose|k: int| 0 <= k < tail.len() && tail[k] == q[j - 1].0;
                    assert(cands[k + 1] == tail[k]);
                } else {
                    assert(p[i] == q[i - 1] && p[j] == q[j - 1]);
                }
            }
        }
    }
}

proof fn lemma_backfill_distinct(
    rest: Seq<AccountId>,
    acc: Seq<Sequencer>,
    reg: Seq<(AccountId, u128)>,
    min: nat,
)
    requires
        ids_distinct(acc),
    ensures
        ids_distinct(backfill(rest, acc, reg, min)),
    decreases rest.len(),
{
    if rest.len() > 0 && acc.len() < min {
        let tail = rest.drop_first();
        if has_id(acc, rest[0]) {
            lemma_backfill_distinct(tail, acc, reg, min);
            assert(backfill(rest, acc, reg, min) == backfill(tail, acc, reg, min));
        } else {
            let x = (rest[0], stake_of(reg, rest[0]));
            let acc2 = acc.push(x);
            assert forall|i: int, j: int| 0 <= i < j < acc2.len() implies acc2[i].0 != acc2[j].0 by {
                assert(acc2[i] == acc[i]);
                if j == acc.len() {
                    assert(acc[i].0 != rest[0]);
                } else {
                    assert(acc2[j] == acc[j]);
                }
            }
            lemma_backfill_distinct(tail, acc2, reg, min);
            assert(backfill(rest, acc, reg, min) == backfill(tail, acc2, reg, min));
        }
    } else {
        assert(backfill(rest, acc, reg, min) == acc);
    }
}

/// Where no candidate occurs twice, no account occurs twice in the roster.
pub proof fn lemma_roster_distinct(cands: Seq<AccountId>, reg: Seq<(AccountId, u128)>, m: nat)
    requires
        cands.no_duplicates(),
    ensures
        ids_distinct(elect_spec(cands, reg, m)),
{
    let th = threshold_of(average_stake(reg));
    lemma_passing_distinct(cands, reg, th);
    lemma_backfill_distinct(cands, passing(cands, reg, th), reg, m);
}

proof fn lemma_total_remove(s: Seq<(AccountId, u128)>, j: int)
    requires
        0 <= j < s.len(),
    ensures
        total_stake(s) == s[j].1 + total_stake(s.remove(j)),
    decreases s.len(),
{
    if j == 0 {
        assert(s.remove(0) =~= s.drop_first());
    } else {
        assert(s.remove(j).drop_first() =~= s.drop_first().remove(j - 1));
        lemma_total_remove(s.drop_first(), j - 1);
    }
}

/// Two registries with unique keys, the same accounts and the same stake for
/// each account hold the same total over the same number of entries.
proof fn lemma_same_registry(r1: Seq<(AccountId, u128)>, r2: Seq<(AccountId, u128)>)
    requires
        keys_unique(r1),
        keys_unique(r2),
        forall|k: AccountId| has_account(r1, k) <==> has_account(r2, k),
        forall|k: AccountId| #[trigger] stake_of(r1, k) == stake_of(r2, k),
    ensures
        total_stake(r1) == total_stake(r2),
        r1.len() == r2.len(),
    decreases r1.len(),
{
    if r1.len() == 0 {
        if r2.len() > 0 {
            assert(has_account(r2, r2[0].0));
        }
    } else {
        let k = r1[0].0;
        assert(has_account(r1, k));
        let j = choose|j: int| 0 <= j < r2.len() && #[trigger] r2[j].0 == k;
        let t1 = r1.drop_first();
        let t2 = r2.remove(j);
        assert(keys_unique(t2)) by {
            assert forall|a: int, b: int| 0 <= a < b < t2.len() implies t2[a].0 != t2[b].0 by {
                let a2 = if a < j { a } else { a + 1 };
                let b2 = if b < j { b } else { b + 1 };
                assert(t2[a] == r2[a2] && t2[b] == r2[b2]);
            }
        }
        assert forall|x: AccountId| has_account(t1, x) <==> has_account(t2, x) by {
            if has_account(t1, x) {
                let i = choose|i: int| 0 <= i < t1.len() && #[trigger] t1[i].0 == x;
                assert(r1[i + 1].0 == x);
                assert(has_account(r1, x));
                let i2 = choose|i2: int| 0 <= i2 < r2.len() && #[trigger] r2[i2].0 == x;
                assert(x != k);
                assert(i2 != j);
                if i2 < j {
                    assert(t2[i2].0 == x);
                } else {
                    assert(t2[i2 - 1].0 == x);
                }
            }
            if has_account(t2, x) {
                let i = choose|i: int| 0 <= i < t2.len() && #[trigger] t2[i].0 == x;
                let i2 = if i < j { i } else { i + 1 };
                assert(r2[i2].0 == x);
                assert(has_account(r2, x));
                assert(x != k);
                let i1 = choose|i1: int| 0 <= i1 < r1.len() && #[trigger] r1[i1].0 == x;
                assert(i1 != 0);
                assert(t1[i1 - 1].0 == x);
            }
        }
        assert forall|x: AccountId| #[trigger] stake_of(t1, x) == stake_of(t2, x) by {
            if has_account(t1, x) {
                let i = choose|i: int| 0 <= i < t1.len() && #[trigger] t1[i].0 == x;
                assert(has_account(t2, x));
                let i2 = choose|i2: int| 0 <= i2 < t2.len() && #[trigger] t2[i2].0 == x;
                lemma_stake_at(r1, i + 1);
                lemma_stake_at(t1, i);
                lemma_stake_at(t2, i2);
                let i3 = if i2 < j { i2 } else { i2 + 1 };
                assert(r2[i3] == t2[i2]);
                lemma_stake_at(r2, i3);
            } else {
                lemma_stake_absent(t1, x);
                if has_account(t2, x) {
                    assert(has_account(t1, x));
                }
                lemma_stake_absent(t2, x);
            }
        }
        lemma_same_registry(t1, t2);
        lemma_total_remove(r2, j);
        lemma_stake_at(r1, 0);
        lemma_stake_at(r2, j);
    }
}

proof fn lemma_passing_same_stakes(
    cands: Seq<AccountId>,
    r1: Seq<(AccountId, u128)>,
    r2: Seq<(AccountId, u128)>,
    th: nat,
)
    requires
        forall|k: AccountId| #[trigger] stake_of(r1, k) == stake_of(r2, k),
    ensures
        passing(cands, r1, th) == passing(cands, r2, th),
    decreases cands.len(),
{
    if cands.len() > 0 {
        assert(stake_of(r1, cands[0]) == stake_of(r2, cands[0]));
        lemma_passing_same_stakes(cands.drop_first(), r1, r2, th);
    }
}

proof fn lemma_backfill_same_stakes(
    rest: Seq<AccountId>,
    acc: Seq<Sequencer>,
    r1: Seq<(AccountId, u128)>,
    r2: Seq<(AccountId, u128)>,
    min: nat,
)
    requires
        forall|k: AccountId| #[trigger] stake_of(r1, k) == stake_of(r2, k),
    ensures
        backfill(rest, acc, r1, min) == backfill(rest, acc, r2, min),
    decreases rest.len(),
{
    if rest.len() > 0 && acc.len() < min {
        assert(stake_of(r1, rest[0]) == stake_of(r2, rest[0]));
        if has_id(acc, rest[0]) {
            lemma_backfill_same_stakes(rest.drop_first(), acc, r1, r2, min);
        } else {
            lemma_backfill_same_stakes(
                rest.drop_first(),
                acc.push((rest[0], stake_of(r1, rest[0]))),
                r1,
                r2,
                min,
            );
        }
    }
}

/// The election depends on the registry only as a map from accounts to
/// stakes: two registries with unique keys, the same accounts and the same
/// stake for each account elect the same roster, in the same order, whatever
/// order their entries are stored in.
pub proof fn lemma_elect_deterministic(
    cands: Seq<AccountId>,
    r1: Seq<(AccountId, u128)>,
    r2: Seq<(AccountId, u128)>,
    m: nat,
)
    requires
        keys_unique(r1),
        keys_unique(r2),
        forall|k: AccountId| has_account(r1, k) <==> has_account(r2, k),
        forall|k: AccountId| #[trigger] stake_of(r1, k) == stake_of(r2, k),
    ensures
        elect_spec(cands, r1, m) == elect_spec(cands, r2, m),
{
    lemma_same_registry(r1, r2);
    let th = threshold_of(average_stake(r1));
    assert(th == threshold_of(average_stake(r2)));
    lemma_passing_same_stakes(cands, r1, r2, th);
    lemma_backfill_same_stakes(cands, passing(cands, r1, th), r1, r2, m);
}

} // verus!
