//! The committee: authorities with their stake, the quorum and validity
//! thresholds, and the arithmetic of stake-weighted sets of authorities.

use crate::types::PublicKey;
use vstd::prelude::*;

verus! {

/// The voting weight of an authority.
pub type Stake = u32;

/// One member of the committee.
#[derive(Clone, Copy, Debug, PartialEq, Eq)]
pub struct Authority {
    pub name: PublicKey,
    pub stake: Stake,
}

/// Why a list of authorities is no committee.
#[derive(Clone, Copy, Debug, PartialEq, Eq)]
pub enum CommitteeError {
    /// The same authority is listed twice.
    DuplicateAuthority(PublicKey),
    /// The stakes add up to more than a `Stake` can hold.
    StakeOverflow,
    /// No authority has stake: nothing could ever reach a quorum.
    NoStake,
}

/// The members of a committee, in the order in which they were listed.
pub struct CommitteeView {
    pub members: Seq<Authority>,
}

impl CommitteeView {
    /// No authority is listed twice.
    pub open spec fn names_distinct(self) -> bool {
        forall|i: int, j: int|
            0 <= i < j < self.members.len() ==> self.members[i].name != self.members[j].name
    }

    /// Whether the authority listed at `j` is listed earlier too.
    pub open spec fn repeats_at(self, j: int) -> bool {
        exists|i: int| 0 <= i < j && (#[trigger] self.members[i]).name == self.members[j].name
    }

    /// Whether `j` is the first place in the list at which an authority
    /// repeats an earlier one.
    pub open spec fn first_repeat(self, j: int) -> bool {
        &&& 0 <= j < self.members.len()
        &&& self.repeats_at(j)
        &&& forall|k: int| 0 <= k < j ==> !self.repeats_at(k)
    }

    /// The sum of all stakes.
    pub open spec fn total(self) -> nat
        decreases self.members.len(),
    {
        if self.members.len() == 0 {
            0
        } else {
            (CommitteeView { members: self.members.drop_last() }).total()
                + self.members.last().stake as nat
        }
    }

    /// A committee lists no authority twice, has stake, and its total stake
    /// fits a `Stake`.
    pub open spec fn wf(self) -> bool {
        &&& self.names_distinct()
        &&& 0 < self.total() <= Stake::MAX
    }

    /// Whether `name` is a member.
    pub open spec fn has(self, name: PublicKey) -> bool {
        exists|i: int| 0 <= i < self.members.len() && #[trigger] self.members[i].name == name
    }

    /// The combined stake of the members that belong to `voters`.
    pub open spec fn weight(self, voters: Set<PublicKey>) -> nat
        decreases self.members.len(),
    {
        if self.members.len() == 0 {
            0
        } else {
            let rest = (CommitteeView { members: self.members.drop_last() }).weight(voters);
            if voters.contains(self.members.last().name) {
                rest + self.members.last().stake as nat
            } else {
                rest
            }
        }
    }

    /// The stake of `name`; zero for one that is no member.
    pub open spec fn stake_of(self, name: PublicKey) -> nat {
        self.weight(set![name])
    }

    /// The least stake that makes a quorum: more than two thirds of the total.
    pub open spec fn quorum(self) -> nat {
        2 * self.total() / 3 + 1
    }

    /// The least stake that is sure to include a correct authority: more than
    /// the stake that may be faulty.
    pub open spec fn validity(self) -> nat {
        (self.total() + 2) / 3
    }

    /// The most stake that may be faulty while the protocol stays safe.
    pub open spec fn max_faulty(self) -> nat {
        if self.total() == 0 {
            0
        } else {
            ((self.total() - 1) / 3) as nat
        }
    }

    /// The committee without its last listed member.
    pub open spec fn front(self) -> CommitteeView {
        CommitteeView { members: self.members.drop_last() }
    }

    /// The committee of the first `n` listed members.
    pub open spec fn prefix(self, n: int) -> CommitteeView {
        CommitteeView { members: self.members.take(n) }
    }

    /// What the member listed at `n` adds to the first `n` members.
    pub proof fn lemma_prefix_step(self, n: int, voters: Set<PublicKey>)
        requires
            0 <= n < self.members.len(),
        ensures
            self.prefix(n + 1).total() == self.prefix(n).total() + self.members[n].stake,
            self.prefix(n + 1).weight(voters) == self.prefix(n).weight(voters) + if voters.contains(
                self.members[n].name,
            ) {
                self.members[n].stake as nat
            } else {
                0
            },
    {
        let upto = self.prefix(n + 1);
        assert(upto.members.drop_last() =~= self.members.take(n));
        assert(upto.members.last() == self.members[n]);
    }

    /// The first members weigh no more than the whole committee.
    pub proof fn lemma_prefix_total(self, n: int)
        requires
            0 <= n <= self.members.len(),
        ensures
            self.prefix(n).total() <= self.total(),
            n == self.members.len() ==> self.prefix(n) == self,
        decreases self.members.len(),
    {
        if n < self.members.len() {
            self.front().lemma_prefix_total(n);
            assert(self.members.drop_last().take(n) =~= self.members.take(n));
        } else {
            assert(self.members.take(n) =~= self.members);
        }
    }

    /// A set of authorities weighs no more than the whole committee.
    pub proof fn lemma_weight_bounded(self, voters: Set<PublicKey>)
        ensures
            self.weight(voters) <= self.total(),
        decreases self.members.len(),
    {
        if self.members.len() > 0 {
            self.front().lemma_weight_bounded(voters);
        }
    }

    /// The empty set weighs nothing.
    pub proof fn lemma_weight_empty(self)
        ensures
            self.weight(Set::empty()) == 0,
        decreases self.members.len(),
    {
        if self.members.len() > 0 {
            self.front().lemma_weight_empty();
        }
    }

    /// A larger set weighs at least as much.
    pub proof fn lemma_weight_monotone(self, small: Set<PublicKey>, large: Set<PublicKey>)
        requires
            small.subset_of(large),
        ensures
            self.weight(small) <= self.weight(large),
        decreases self.members.len(),
    {
        if self.members.len() > 0 {
            self.front().lemma_weight_monotone(small, large);
        }
    }

    /// Weight depends only on which members belong to the set.
    pub proof fn lemma_weight_same_members(self, a: Set<PublicKey>, b: Set<PublicKey>)
        requires
            forall|i: int|
                0 <= i < self.members.len() ==> (a.contains(#[trigger] self.members[i].name)
                    <==> b.contains(self.members[i].name)),
        ensures
            self.weight(a) == self.weight(b),
        decreases self.members.len(),
    {
        if self.members.len() > 0 {
            let front = self.front();
            assert forall|i: int| 0 <= i < front.members.len() implies (a.contains(
                #[trigger] front.members[i].name,
            ) <==> b.contains(front.members[i].name)) by {
                assert(front.members[i] == self.members[i]);
            }
            front.lemma_weight_same_members(a, b);
            assert(self.members.last() == self.members[self.members.len() - 1]);
        }
    }

    /// The weights of two sets add up to those of their union and intersection.
    pub proof fn lemma_weight_union(self, a: Set<PublicKey>, b: Set<PublicKey>)
        ensures
            self.weight(a.union(b)) + self.weight(a.intersect(b)) == self.weight(a) + self.weight(
                b,
            ),
        decreases self.members.len(),
    {
        if self.members.len() > 0 {
            self.front().lemma_weight_union(a, b);
        }
    }

    /// The weights of two disjoint sets add up to no more than the total.
    pub proof fn lemma_weight_disjoint(self, a: Set<PublicKey>, b: Set<PublicKey>)
        requires
            a.disjoint(b),
        ensures
            self.weight(a) + self.weight(b) <= self.total(),
    {
        self.lemma_weight_union(a, b);
        assert(a.intersect(b) =~= Set::empty());
        self.lemma_weight_empty();
        self.lemma_weight_bounded(a.union(b));
    }

    /// A set that holds no member weighs nothing.
    pub proof fn lemma_weight_of_strangers(self, voters: Set<PublicKey>)
        requires
            forall|i: int|
                0 <= i < self.members.len() ==> !voters.contains(#[trigger] self.members[i].name),
        ensures
            self.weight(voters) == 0,
    {
        assert forall|i: int| 0 <= i < self.members.len() implies (voters.contains(
            #[trigger] self.members[i].name,
        ) <==> Set::<PublicKey>::empty().contains(self.members[i].name)) by {}
        self.lemma_weight_same_members(voters, Set::empty());
        self.lemma_weight_empty();
    }

    /// The stake of the member listed at `i` is the stake that the list gives it.
    pub proof fn lemma_stake_of_member(self, i: int)
        requires
            self.names_distinct(),
            0 <= i < self.members.len(),
        ensures
            self.stake_of(self.members[i].name) == self.members[i].stake,
        decreases self.members.len(),
    {
        let name = self.members[i].name;
        let front = self.front();
        let last = self.members.len() - 1;
        if i == last {
            assert forall|j: int| 0 <= j < front.members.len() implies !set![name].contains(
                #[trigger] front.members[j].name,
            ) by {
                assert(front.members[j] == self.members[j]);
            }
            front.lemma_weight_of_strangers(set![name]);
        } else {
            assert(front.members[i] == self.members[i]);
            assert(front.names_distinct()) by {
                assert forall|a: int, b: int| 0 <= a < b < front.members.len() implies front.members[a].name
                    != front.members[b].name by {
                    assert(front.members[a] == self.members[a]);
                    assert(front.members[b] == self.members[b]);
                }
            }
            front.lemma_stake_of_member(i);
            assert(self.members[last].name != name);
        }
    }

    /// One that is no member has no stake.
    pub proof fn lemma_stake_of_stranger(self, name: PublicKey)
        requires
            !self.has(name),
        ensures
            self.stake_of(name) == 0,
    {
        self.lemma_weight_of_strangers(set![name]);
    }

    /// Adding an authority to a set adds its stake to the weight.
    pub proof fn lemma_weight_insert(self, voters: Set<PublicKey>, name: PublicKey)
        requires
            !voters.contains(name),
        ensures
            self.weight(voters.insert(name)) == self.weight(voters) + self.stake_of(name),
    {
        self.lemma_weight_union(voters, set![name]);
        assert(voters.intersect(set![name]) =~= Set::empty());
        assert(voters.union(set![name]) =~= voters.insert(name));
        self.lemma_weight_empty();
    }

    /// A set with weight holds a member with stake.
    pub proof fn lemma_weight_has_member(self, voters: Set<PublicKey>) -> (name: PublicKey)
        requires
            self.weight(voters) > 0,
        ensures
            voters.contains(name),
            self.has(name),
        decreases self.members.len(),
    {
        let last = self.members.last();
        if voters.contains(last.name) {
            assert(self.members[self.members.len() - 1].name == last.name);
            last.name
        } else {
            let front = self.front();
            let name = front.lemma_weight_has_member(voters);
            let i = choose|i: int| 0 <= i < front.members.len() && #[trigger] front.members[i].name == name;
            assert(self.members[i].name == name);
            name
        }
    }

    /// A quorum outweighs half of the committee, and what may be faulty is
    /// less than the validity threshold.
    pub proof fn lemma_thresholds(self)
        ensures
            2 * self.quorum() > self.total(),
            2 * self.quorum() >= self.total() + self.validity(),
            self.max_faulty() < self.validity() || self.total() == 0,
            self.quorum() + self.max_faulty() <= self.total() || self.total() == 0,
            self.total() > 0 ==> self.validity() >= 1,
    {
    }

    /// Any two quorums share authorities whose stake reaches the validity
    /// threshold.
    pub proof fn lemma_quorums_intersect(self, a: Set<PublicKey>, b: Set<PublicKey>)
        requires
            self.weight(a) >= self.quorum(),
            self.weight(b) >= self.quorum(),
        ensures
            self.weight(a.intersect(b)) >= self.validity(),
            self.weight(a.intersect(b)) > 0,
    {
        self.lemma_weight_union(a, b);
        self.lemma_weight_bounded(a.union(b));
        self.lemma_thresholds();
        self.lemma_weight_bounded(a);
    }

    /// Any two quorums share a member outside any set that weighs less than
    /// the validity threshold.
    pub proof fn lemma_quorums_share_correct(
        self,
        a: Set<PublicKey>,
        b: Set<PublicKey>,
        faulty: Set<PublicKey>,
    ) -> (name: PublicKey)
        requires
            self.weight(a) >= self.quorum(),
            self.weight(b) >= self.quorum(),
            self.weight(faulty) < self.validity(),
        ensures
            a.contains(name),
            b.contains(name),
            !faulty.contains(name),
            self.has(name),
    {
        self.lemma_quorums_intersect(a, b);
        let both = a.intersect(b);
        let correct = both.difference(faulty);
        self.lemma_weight_union(correct, both.intersect(faulty));
        assert(correct.union(both.intersect(faulty)) =~= both);
        assert(correct.intersect(both.intersect(faulty)) =~= Set::empty());
        self.lemma_weight_empty();
        self.lemma_weight_monotone(both.intersect(faulty), faulty);
        self.lemma_weight_has_member(correct)
    }
}

/// The fixed set of authorities that take part in consensus.
#[derive(Debug)]
pub struct Committee {
    authorities: Vec<Authority>,
}

impl View for Committee {
    type V = CommitteeView;

    closed spec fn view(&self) -> CommitteeView {
        CommitteeView { members: self.authorities@ }
    }
}

impl Committee {
    #[verifier::type_invariant]
    spec fn valid(&self) -> bool {
        self@.wf()
    }

    /// The committee of `authorities`. They are none where an authority is
    /// listed twice, which is reported with the first authority in the list
    /// that repeats an earlier one, or else where the stakes add up to more
    /// than a `Stake` holds or to nothing.
    pub fn new(authorities: Vec<Authority>) -> (made: Result<Committee, CommitteeError>)
        ensures
            match made {
                Ok(c) => c@.members == authorities@ && c@.wf(),
                Err(CommitteeError::DuplicateAuthority(name)) => exists|j: int|
                    (CommitteeView { members: authorities@ }).first_repeat(j) && name
                        == authorities@[j].name,
                Err(CommitteeError::StakeOverflow) => (CommitteeView { members: authorities@ }).names_distinct()
                    && (CommitteeView { members: authorities@ }).total() > Stake::MAX,
                Err(CommitteeError::NoStake) => (CommitteeView { members: authorities@ }).names_distinct()
                    && (CommitteeView { members: authorities@ }).total() == 0,
            },
            (CommitteeView { members: authorities@ }).wf() ==> made is Ok,
    {
        let ghost all = CommitteeView { members: authorities@ };
        let mut j: usize = 0;
        while j < authorities.len()
            invariant
                j <= authorities.len(),
                all.members == authorities@,
                forall|k: int| 0 <= k < j ==> !all.repeats_at(k),
            decreases authorities.len() - j,
        {
            let mut i: usize = 0;
            while i < j
                invariant
                    i <= j,
                    j < authorities.len(),
                    all.members == authorities@,
                    forall|k: int| 0 <= k < j ==> !all.repeats_at(k),
                    forall|a: int| 0 <= a < i ==> (#[trigger] all.members[a]).name != all.members[j as int].name,
                decreases j - i,
            {
                if authorities[i].name == authorities[j].name {
                    proof {
                        assert(all.members[i as int].name == all.members[j as int].name);
                        assert(all.repeats_at(j as int));
                        assert(all.first_repeat(j as int));
                        assert(!all.names_distinct());
                    }
                    return Err(CommitteeError::DuplicateAuthority(authorities[j].name));
                }
                i += 1;
            }
            j += 1;
        }
        assert(all.names_distinct()) by {
            assert forall|a: int, b: int| 0 <= a < b < all.members.len() implies all.members[a].name
                != all.members[b].name by {
                assert(!all.repeats_at(b));
            }
        }
        let mut total: u64 = 0;
        let mut k: usize = 0;
        while k < authorities.len()
            invariant
                k <= authorities.len(),
                all.members == authorities@,
                all.names_distinct(),
                total == all.prefix(k as int).total(),
                total <= Stake::MAX,
            decreases authorities.len() - k,
        {
            proof {
                all.lemma_prefix_step(k as int, Set::empty());
                all.lemma_prefix_total(k as int + 1);
            }
            total = total + authorities[k].stake as u64;
            if total > Stake::MAX as u64 {
                return Err(CommitteeError::StakeOverflow);
            }
            k += 1;
        }
        proof {
            all.lemma_prefix_total(k as int);
        }
        if total == 0 {
            return Err(CommitteeError::NoStake);
        }
        Ok(Committee { authorities })
    }

    /// The number of authorities.
    pub fn size(&self) -> (n: usize)
        ensures
            n == self@.members.len(),
            self@.wf(),
    {
        proof {
            use_type_invariant(self);
        }
        self.authorities.len()
    }

    /// The authority listed at `index`.
    pub fn member(&self, index: usize) -> (a: Authority)
        requires
            index < self@.members.len(),
        ensures
            a == self@.members[index as int],
    {
        self.authorities[index]
    }

    /// The stake of `name`; zero for one that is no member.
    pub fn stake(&self, name: &PublicKey) -> (s: Stake)
        ensures
            s == self@.stake_of(*name),
            self@.wf(),
    {
        proof {
            use_type_invariant(self);
        }
        let mut i: usize = 0;
        while i < self.authorities.len()
            invariant
                i <= self.authorities.len(),
                self@.wf(),
                self@.members == self.authorities@,
                forall|k: int| 0 <= k < i ==> self.authorities@[k].name != *name,
            decreases self.authorities.len() - i,
        {
            if self.authorities[i].name == *name {
                proof {
                    self@.lemma_stake_of_member(i as int);
                }
                return self.authorities[i].stake;
            }
            i += 1;
        }
        proof {
            self@.lemma_stake_of_stranger(*name);
        }
        0
    }

    /// The sum of all stakes.
    pub fn total_stake(&self) -> (t: Stake)
        ensures
            t == self@.total(),
            self@.wf(),
    {
        proof {
            use_type_invariant(self);
        }
        let mut total: Stake = 0;
        let mut i: usize = 0;
        while i < self.authorities.len()
            invariant
                i <= self.authorities.len(),
                total == (CommitteeView { members: self.authorities@.take(i as int) }).total(),
                self@.total() <= Stake::MAX,
                self@.members == self.authorities@,
            decreases self.authorities.len() - i,
        {
            proof {
                self@.lemma_prefix_step(i as int, Set::empty());
                self@.lemma_prefix_total(i as int + 1);
            }
            total = total + self.authorities[i].stake;
            i += 1;
        }
        assert(self.authorities@.take(i as int) =~= self.authorities@);
        total
    }

    /// The stake that makes a quorum: more than two thirds of the total.
    pub fn quorum_threshold(&self) -> (q: Stake)
        ensures
            q == self@.quorum(),
            self@.wf(),
    {
        let total = self.total_stake() as u64;
        (2 * total / 3 + 1) as Stake
    }

    /// The stake that is sure to include a correct authority.
    pub fn validity_threshold(&self) -> (v: Stake)
        ensures
            v == self@.validity(),
            self@.wf(),
    {
        let total = self.total_stake() as u64;
        ((total + 2) / 3) as Stake
    }
}

} // verus!
