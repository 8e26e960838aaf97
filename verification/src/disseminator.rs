//! The quorum disseminator of a worker: a sealed batch may be referenced
//! in a header once authorities with a quorum of stake, the worker's own
//! included, have acknowledged it, and batches are released in the order in
//! which they were sealed.

use crate::committee::{Committee, CommitteeView, Stake};
use crate::types::{Digest, PublicKey};
use vstd::prelude::*;

verus! {

/// A batch that has been sent to the other workers.
pub struct InFlightView {
    pub digest: Digest,
    /// The authorities that hold the batch: the worker's own and those
    /// that have acknowledged it.
    pub holders: Set<PublicKey>,
}

/// The state of a disseminator.
pub struct DisseminatorView {
    /// The authority of the worker itself.
    pub own: PublicKey,
    pub committee: CommitteeView,
    /// The batches that are not released yet, in the order of sealing.
    pub waiting: Seq<InFlightView>,
}

impl DisseminatorView {
    /// The disseminator that has sent nothing.
    pub open spec fn new(own: PublicKey, committee: CommitteeView) -> DisseminatorView {
        DisseminatorView { own, committee, waiting: Seq::empty() }
    }

    /// Whether the holders of a batch have a quorum of stake.
    pub open spec fn disseminated(self, batch: InFlightView) -> bool {
        self.committee.weight(batch.holders) >= self.committee.quorum()
    }

    /// How many batches at the front of the line are disseminated.
    pub open spec fn ready(self) -> nat
        decreases self.waiting.len(),
    {
        if self.waiting.len() == 0 || !self.disseminated(self.waiting[0]) {
            0
        } else {
            1 + (DisseminatorView { waiting: self.waiting.drop_first(), ..self }).ready()
        }
    }

    /// Releasing: the batches at the front of the line that are
    /// disseminated leave it, in order; a batch behind one that is not
    /// disseminated waits.
    pub open spec fn release(self) -> (DisseminatorView, Seq<Digest>) {
        let n = self.ready() as int;
        (
            DisseminatorView { waiting: self.waiting.skip(n), ..self },
            Seq::new(n as nat, |i: int| self.waiting[i].digest),
        )
    }

    /// A sealed batch has been sent to the other workers: it joins the
    /// line, held by the worker itself, and what is disseminated is
    /// released.
    pub open spec fn submit(self, digest: Digest) -> (DisseminatorView, Seq<Digest>) {
        (DisseminatorView {
            waiting: self.waiting.push(InFlightView { digest, holders: set![self.own] }),
            ..self
        }).release()
    }

    /// The place in the line of the first batch with the digest `digest`;
    /// the length of the line if there is none.
    pub open spec fn place_of(self, digest: Digest) -> int
        decreases self.waiting.len(),
    {
        if self.waiting.len() == 0 {
            0
        } else if self.waiting[0].digest == digest {
            0
        } else {
            1 + (DisseminatorView { waiting: self.waiting.drop_first(), ..self }).place_of(digest)
        }
    }

    /// The authority `from` acknowledges the batch with the digest
    /// `digest`: it joins the holders of the first such batch in the line,
    /// and what is disseminated is released. An acknowledgement of a batch
    /// that is not in the line changes nothing.
    pub open spec fn ack(self, digest: Digest, from: PublicKey) -> (DisseminatorView, Seq<Digest>) {
        let at = self.place_of(digest);
        if at < self.waiting.len() {
            (DisseminatorView {
                waiting: self.waiting.update(
                    at,
                    InFlightView { digest, holders: self.waiting[at].holders.insert(from) },
                ),
                ..self
            }).release()
        } else {
            (self, seq![])
        }
    }
}

/// What reaches a disseminator.
pub enum DisseminatorEvent {
    /// A sealed batch has been sent to the other workers.
    Submit(Digest),
    /// An authority has acknowledged a batch.
    Ack(Digest, PublicKey),
}

/// What one event does, and the batches that are released.
pub open spec fn handle(state: DisseminatorView, event: DisseminatorEvent) -> (
    DisseminatorView,
    Seq<Digest>,
) {
    match event {
        DisseminatorEvent::Submit(digest) => state.submit(digest),
        DisseminatorEvent::Ack(digest, from) => state.ack(digest, from),
    }
}

/// The line as it stands when an event has been taken in and before
/// anything is released: a submitted batch has joined it, an acknowledged
/// batch has its new holder.
pub open spec fn staged(state: DisseminatorView, event: DisseminatorEvent) -> DisseminatorView {
    match event {
        DisseminatorEvent::Submit(digest) => DisseminatorView {
            waiting: state.waiting.push(InFlightView { digest, holders: set![state.own] }),
            ..state
        },
        DisseminatorEvent::Ack(digest, from) => {
            let at = state.place_of(digest);
            if at < state.waiting.len() {
                DisseminatorView {
                    waiting: state.waiting.update(
                        at,
                        InFlightView { digest, holders: state.waiting[at].holders.insert(from) },
                    ),
                    ..state
                }
            } else {
                DisseminatorView { waiting: Seq::empty(), ..state }
            }
        },
    }
}

/// Nothing is released before a quorum holds it: whatever the state and
/// the event, each batch that is released stands at the front of the line,
/// and the stake of its holders, the worker's own included, reaches the
/// quorum at that moment.
pub proof fn lemma_released_on_quorum(state: DisseminatorView, event: DisseminatorEvent)
    ensures
        forall|i: int|
            0 <= i < handle(state, event).1.len() ==> {
                &&& i < staged(state, event).waiting.len()
                &&& handle(state, event).1[i] == (#[trigger] staged(state, event).waiting[i]).digest
                &&& state.committee.weight(staged(state, event).waiting[i].holders)
                    >= state.committee.quorum()
            },
{
    let line = staged(state, event);
    lemma_release_takes_front(line);
    lemma_ready_bounded(line);
    match event {
        DisseminatorEvent::Submit(digest) => {
            assert(handle(state, event) == line.release());
        },
        DisseminatorEvent::Ack(digest, from) => {
            lemma_place_of(state, digest);
            if state.place_of(digest) < state.waiting.len() {
                assert(handle(state, event) == line.release());
            }
        },
    }
}

/// What a list of events does, and the batches that are released on the
/// way, in order.
pub open spec fn run(state: DisseminatorView, events: Seq<DisseminatorEvent>) -> (
    DisseminatorView,
    Seq<Digest>,
)
    decreases events.len(),
{
    if events.len() == 0 {
        (state, seq![])
    } else {
        let (before, released) = run(state, events.drop_last());
        let (after, more) = handle(before, events.last());
        (after, released + more)
    }
}

/// The batches that a list of events submits, in order.
pub open spec fn submitted(events: Seq<DisseminatorEvent>) -> Seq<Digest>
    decreases events.len(),
{
    if events.len() == 0 {
        seq![]
    } else {
        match events.last() {
            DisseminatorEvent::Submit(digest) => submitted(events.drop_last()).push(digest),
            DisseminatorEvent::Ack(_, _) => submitted(events.drop_last()),
        }
    }
}

/// The digests of the batches in a line, in order.
pub open spec fn digests_of(waiting: Seq<InFlightView>) -> Seq<Digest> {
    Seq::new(waiting.len(), |i: int| waiting[i].digest)
}

/// No more batches are ready than are in the line, and every batch that is
/// ready is disseminated.
pub proof fn lemma_ready_bounded(state: DisseminatorView)
    ensures
        state.ready() <= state.waiting.len(),
        forall|i: int| 0 <= i < state.ready() ==> state.disseminated(#[trigger] state.waiting[i]),
        state.ready() < state.waiting.len() ==> !state.disseminated(
            state.waiting[state.ready() as int],
        ),
    decreases state.waiting.len(),
{
    if state.waiting.len() > 0 && state.disseminated(state.waiting[0]) {
        let rest = DisseminatorView { waiting: state.waiting.drop_first(), ..state };
        lemma_ready_bounded(rest);
        assert forall|i: int| 0 <= i < state.ready() implies state.disseminated(
            #[trigger] state.waiting[i],
        ) by {
            if i > 0 {
                assert(rest.waiting[i - 1] == state.waiting[i]);
                assert(rest.disseminated(rest.waiting[i - 1]));
            }
        }
        if state.ready() < state.waiting.len() {
            assert(rest.waiting[rest.ready() as int] == state.waiting[state.ready() as int]);
        }
    }
}

/// Releasing takes batches from the front of the line and leaves the rest
/// in order; every batch that is released is held by a quorum.
pub proof fn lemma_release_takes_front(state: DisseminatorView)
    ensures
        state.release().1 + digests_of(state.release().0.waiting) == digests_of(state.waiting),
        forall|i: int|
            0 <= i < state.release().1.len() ==> state.disseminated(#[trigger] state.waiting[i])
                && state.release().1[i] == state.waiting[i].digest,
{
    lemma_ready_bounded(state);
    assert(state.release().1 + digests_of(state.release().0.waiting) =~= digests_of(
        state.waiting,
    ));
}

/// The place of a digest lies in the line or just behind it; a place in
/// the line holds the digest.
pub proof fn lemma_place_of(state: DisseminatorView, digest: Digest)
    ensures
        0 <= state.place_of(digest) <= state.waiting.len(),
        state.place_of(digest) < state.waiting.len() ==> state.waiting[state.place_of(
            digest,
        )].digest == digest,
        forall|i: int| 0 <= i < state.place_of(digest) ==> (#[trigger] state.waiting[i]).digest != digest,
    decreases state.waiting.len(),
{
    if state.waiting.len() > 0 && state.waiting[0].digest != digest {
        let rest = DisseminatorView { waiting: state.waiting.drop_first(), ..state };
        lemma_place_of(rest, digest);
        assert forall|i: int| 0 <= i < state.place_of(digest) implies (#[trigger] state.waiting[i]).digest
            != digest by {
            if i > 0 {
                assert(rest.waiting[i - 1] == state.waiting[i]);
            }
        }
        if state.place_of(digest) < state.waiting.len() {
            assert(rest.waiting[rest.place_of(digest)] == state.waiting[state.place_of(digest)]);
        }
    }
}

/// Batches are released in the order of sealing, each once: whatever
/// reaches a disseminator that starts with nothing, the batches released
/// and then the batches that wait are the batches submitted, in order.
pub proof fn lemma_released_in_seal_order(
    own: PublicKey,
    committee: CommitteeView,
    events: Seq<DisseminatorEvent>,
)
    ensures
        run(DisseminatorView::new(own, committee), events).1 + digests_of(
            run(DisseminatorView::new(own, committee), events).0.waiting,
        ) == submitted(events),
        run(DisseminatorView::new(own, committee), events).0.own == own,
        run(DisseminatorView::new(own, committee), events).0.committee == committee,
    decreases events.len(),
{
    let start = DisseminatorView::new(own, committee);
    if events.len() == 0 {
        assert(run(start, events).1 + digests_of(start.waiting) =~= submitted(events));
    } else {
        lemma_released_in_seal_order(own, committee, events.drop_last());
        let (before, released) = run(start, events.drop_last());
        let (after, more) = handle(before, events.last());
        match events.last() {
            DisseminatorEvent::Submit(digest) => {
                let joined = DisseminatorView {
                    waiting: before.waiting.push(
                        InFlightView { digest, holders: set![before.own] },
                    ),
                    ..before
                };
                lemma_release_takes_front(joined);
                assert(digests_of(joined.waiting) =~= digests_of(before.waiting).push(digest));
                assert((released + more) + digests_of(after.waiting) =~= released + (more
                    + digests_of(after.waiting)));
                assert(released + digests_of(before.waiting).push(digest) =~= (released
                    + digests_of(before.waiting)).push(digest));
            },
            DisseminatorEvent::Ack(digest, from) => {
                lemma_place_of(before, digest);
                let at = before.place_of(digest);
                if at < before.waiting.len() {
                    let held = DisseminatorView {
                        waiting: before.waiting.update(
                            at,
                            InFlightView { digest, holders: before.waiting[at].holders.insert(from) },
                        ),
                        ..before
                    };
                    lemma_release_takes_front(held);
                    assert(digests_of(held.waiting) =~= digests_of(before.waiting));
                    assert((released + more) + digests_of(after.waiting) =~= released + (more
                        + digests_of(after.waiting)));
                } else {
                    assert(released + more =~= released);
                }
            },
        }
    }
}

/// A batch that has been sent to the other workers.
#[derive(Debug)]
struct InFlight {
    digest: Digest,
    holders: Vec<PublicKey>,
    /// The stake of the holders.
    weight: Stake,
}

/// Tells when the batches of a worker are disseminated to a quorum.
#[derive(Debug)]
pub struct QuorumDisseminator {
    own: PublicKey,
    committee: Committee,
    waiting: Vec<InFlight>,
}

impl View for QuorumDisseminator {
    type V = DisseminatorView;

    closed spec fn view(&self) -> DisseminatorView {
        DisseminatorView {
            own: self.own,
            committee: self.committee@,
            waiting: Seq::new(
                self.waiting@.len(),
                |i: int|
                    InFlightView {
                        digest: self.waiting@[i].digest,
                        holders: self.waiting@[i].holders@.to_set(),
                    },
            ),
        }
    }
}

impl QuorumDisseminator {
    /// The weight kept with each batch is the stake of its holders.
    pub closed spec fn wf(&self) -> bool {
        forall|i: int|
            0 <= i < self.waiting@.len() ==> (#[trigger] self.waiting@[i]).weight
                == self.committee@.weight(self.waiting@[i].holders@.to_set())
    }

    /// A disseminator for the worker of the authority `own` that has sent
    /// nothing.
    pub fn new(own: PublicKey, committee: Committee) -> (disseminator: QuorumDisseminator)
        ensures
            disseminator.wf(),
            disseminator@ == DisseminatorView::new(own, committee@),
    {
        let disseminator = QuorumDisseminator { own, committee, waiting: Vec::new() };
        assert(disseminator@.waiting =~= Seq::empty());
        disseminator
    }

    /// The number of batches that wait for their quorum.
    pub fn waiting(&self) -> (n: usize)
        ensures
            n == self@.waiting.len(),
    {
        self.waiting.len()
    }

    /// Releases the batches at the front of the line that are
    /// disseminated.
    fn release(&mut self) -> (released: Vec<Digest>)
        requires
            old(self).wf(),
        ensures
            final(self).wf(),
            (final(self)@, released@) == old(self)@.release(),
    {
        let quorum = self.committee.quorum_threshold();
        let mut n: usize = 0;
        let mut released: Vec<Digest> = Vec::new();
        while n < self.waiting.len() && self.waiting[n].weight >= quorum
            invariant
                n <= self.waiting@.len(),
                self.wf(),
                quorum == self.committee@.quorum(),
                released@ == Seq::new(n as nat, |i: int| self@.waiting[i].digest),
                forall|i: int| 0 <= i < n ==> self@.disseminated(#[trigger] self@.waiting[i]),
            decreases self.waiting@.len() - n,
        {
            released.push(self.waiting[n].digest);
            assert(self@.waiting[n as int].holders == self.waiting@[n as int].holders@.to_set());
            n += 1;
            assert(released@ =~= Seq::new(n as nat, |i: int| self@.waiting[i].digest));
        }
        proof {
            if n < self.waiting@.len() {
                assert(self@.waiting[n as int].holders == self.waiting@[n as int].holders@.to_set());
                assert(!self@.disseminated(self@.waiting[n as int]));
            }
            Self::lemma_ready_is(self@, n as int);
        }
        let ghost before = self@;
        let mut rest: Vec<InFlight> = self.waiting.split_off(n);
        core::mem::swap(&mut rest, &mut self.waiting);
        assert(self@.waiting =~= before.waiting.skip(n as int));
        released
    }

    /// The number of ready batches is the length of the longest front of
    /// disseminated batches.
    proof fn lemma_ready_is(state: DisseminatorView, n: int)
        requires
            0 <= n <= state.waiting.len(),
            forall|i: int| 0 <= i < n ==> state.disseminated(#[trigger] state.waiting[i]),
            n < state.waiting.len() ==> !state.disseminated(state.waiting[n]),
        ensures
            state.ready() == n,
    {
        lemma_ready_bounded(state);
        let r = state.ready() as int;
        if r < n {
            assert(state.disseminated(state.waiting[r]));
        } else if r > n {
            assert(state.disseminated(state.waiting[n]));
        }
    }

    /// Takes a sealed batch that has been sent to the other workers into
    /// the line, held by the worker itself, and returns the batches that
    /// may now be referenced in a header, in the order of sealing.
    pub fn submit(&mut self, digest: Digest) -> (released: Vec<Digest>)
        requires
            old(self).wf(),
        ensures
            final(self).wf(),
            (final(self)@, released@) == old(self)@.submit(digest),
    {
        let weight = self.committee.stake(&self.own);
        let mut holders: Vec<PublicKey> = Vec::new();
        holders.push(self.own);
        assert(holders@.to_set() =~= set![self.own]) by {
            assert(holders@[0] == self.own);
        }
        let ghost before = self@;
        self.waiting.push(InFlight { digest, holders, weight });
        assert(self@.waiting =~= before.waiting.push(
            InFlightView { digest, holders: set![self.own] },
        ));
        self.release()
    }

    /// Takes the acknowledgement of the authority `from` for the batch
    /// with the digest `digest`, and returns the batches that may now be
    /// referenced in a header, in the order of sealing. An acknowledgement
    /// of a batch that does not wait changes nothing; one that is repeated
    /// adds no stake.
    pub fn ack(&mut self, digest: &Digest, from: PublicKey) -> (released: Vec<Digest>)
        requires
            old(self).wf(),
        ensures
            final(self).wf(),
            (final(self)@, released@) == old(self)@.ack(*digest, from),
    {
        let mut at: usize = 0;
        while at < self.waiting.len() && self.waiting[at].digest != *digest
            invariant
                at <= self.waiting@.len(),
                forall|i: int| 0 <= i < at ==> (#[trigger] self@.waiting[i]).digest != *digest,
            decreases self.waiting@.len() - at,
        {
            at += 1;
        }
        proof {
            lemma_place_of(self@, *digest);
            let place = self@.place_of(*digest);
            if place < at {
                assert(self@.waiting[place].digest == *digest);
            } else if place > at {
                assert(self@.waiting[at as int].digest != *digest);
            }
        }
        if at >= self.waiting.len() {
            return Vec::new();
        }
        let ghost before = self@;
        let ghost holders = self.waiting@[at as int].holders@.to_set();
        if !Self::holds(&self.waiting[at].holders, &from) {
            let stake = self.committee.stake(&from);
            proof {
                self.committee@.lemma_weight_insert(holders, from);
                self.committee@.lemma_weight_bounded(holders.insert(from));
            }
            self.waiting[at].holders.push(from);
            self.waiting[at].weight = self.waiting[at].weight + stake;
            proof {
                old(self).waiting@[at as int].holders@.lemma_push_to_set_commute(from);
            }
        } else {
            assert(holders.insert(from) =~= holders);
        }
        assert(self@.waiting =~= before.waiting.update(
            at as int,
            InFlightView { digest: *digest, holders: holders.insert(from) },
        ));
        self.release()
    }

    /// Whether `name` is among `holders`.
    fn holds(holders: &Vec<PublicKey>, name: &PublicKey) -> (yes: bool)
        ensures
            yes == holders@.to_set().contains(*name),
    {
        let mut i: usize = 0;
        while i < holders.len()
            invariant
                i <= holders.len(),
                forall|k: int| 0 <= k < i ==> holders@[k] != *name,
            decreases holders.len() - i,
        {
            if holders[i] == *name {
                return true;
            }
            i += 1;
        }
        false
    }
}

} // verus!
