//! What a replica keeps of batches: the batches themselves by digest, and
//! which worker has announced which digest.

use crate::assoc::{
    copy_of, has_key, keys_distinct, lemma_push_distinct, lemma_to_map_domain, lemma_to_map_index,
    lemma_to_map_push, to_map,
};
use crate::types::Digest;
use vstd::prelude::*;

verus! {

/// The id of a worker of an authority.
pub type WorkerId = u32;

/// One stored batch.
#[derive(Debug)]
struct Blob {
    digest: Digest,
    bytes: Vec<u8>,
}

/// Batches by digest. A digest is written once: a later write under the
/// same digest changes nothing.
#[derive(Debug)]
pub struct BlobStore {
    blobs: Vec<Blob>,
}

impl View for BlobStore {
    type V = Map<Digest, Seq<u8>>;

    closed spec fn view(&self) -> Map<Digest, Seq<u8>> {
        to_map(self.pairs())
    }
}

impl BlobStore {
    /// The stored batches as pairs of digest and bytes.
    closed spec fn pairs(&self) -> Seq<(Digest, Seq<u8>)> {
        Seq::new(self.blobs@.len(), |i: int| (self.blobs@[i].digest, self.blobs@[i].bytes@))
    }

    /// No digest is stored twice.
    pub closed spec fn wf(&self) -> bool {
        keys_distinct(self.pairs())
    }

    /// A store that holds nothing.
    pub fn new() -> (store: BlobStore)
        ensures
            store.wf(),
            store@ == Map::<Digest, Seq<u8>>::empty(),
    {
        let store = BlobStore { blobs: Vec::new() };
        assert(store.pairs() =~= Seq::empty());
        store
    }

    /// Where `digest` is stored.
    fn find(&self, digest: &Digest) -> (at: Option<usize>)
        requires
            self.wf(),
        ensures
            match at {
                Some(i) => i < self.blobs@.len() && self.blobs@[i as int].digest == *digest
                    && self@.contains_key(*digest) && self@[*digest] == self.blobs@[i as int].bytes@,
                None => !has_key(self.pairs(), *digest) && !self@.contains_key(*digest),
            },
    {
        let mut i: usize = 0;
        while i < self.blobs.len()
            invariant
                i <= self.blobs.len(),
                self.pairs().len() == self.blobs@.len(),
                self.wf(),
                forall|k: int| 0 <= k < i ==> (#[trigger] self.pairs()[k]).0 != *digest,
            decreases self.blobs.len() - i,
        {
            if self.blobs[i].digest == *digest {
                proof {
                    lemma_to_map_index(self.pairs(), i as int);
                }
                return Some(i);
            }
            i += 1;
        }
        proof {
            lemma_to_map_domain(self.pairs(), *digest);
        }
        None
    }

    /// Stores `bytes` under `digest`, unless something is stored under it
    /// already. Says whether the batch was stored now.
    pub fn put(&mut self, digest: Digest, bytes: Vec<u8>) -> (stored: bool)
        requires
            old(self).wf(),
        ensures
            final(self).wf(),
            stored == !old(self)@.contains_key(digest),
            final(self)@ == if stored {
                old(self)@.insert(digest, bytes@)
            } else {
                old(self)@
            },
    {
        match self.find(&digest) {
            Some(_) => false,
            None => {
                let ghost before = self.pairs();
                proof {
                    lemma_to_map_push(before, digest, bytes@);
                    lemma_push_distinct(before, digest, bytes@);
                }
                self.blobs.push(Blob { digest, bytes });
                assert(self.pairs() =~= before.push((digest, bytes@)));
                true
            },
        }
    }

    /// A copy of what is stored under `digest`.
    pub fn get(&self, digest: &Digest) -> (found: Option<Vec<u8>>)
        requires
            self.wf(),
        ensures
            match found {
                Some(bytes) => self@.contains_key(*digest) && bytes@ == self@[*digest],
                None => !self@.contains_key(*digest),
            },
    {
        match self.find(digest) {
            Some(i) => Some(copy_of(self.blobs[i].bytes.as_slice())),
            None => None,
        }
    }

    /// Whether something is stored under `digest`.
    pub fn holds(&self, digest: &Digest) -> (yes: bool)
        requires
            self.wf(),
        ensures
            yes == self@.contains_key(*digest),
    {
        self.find(digest).is_some()
    }
}

/// The digests that workers have announced, each with the worker that
/// announced it. Announcements are only added, each once.
#[derive(Debug)]
pub struct PayloadReceiver {
    announced: Vec<(Digest, WorkerId)>,
}

impl View for PayloadReceiver {
    type V = Set<(Digest, WorkerId)>;

    closed spec fn view(&self) -> Set<(Digest, WorkerId)> {
        self.announced@.to_set()
    }
}

impl PayloadReceiver {
    /// A receiver that has heard nothing.
    pub fn new() -> (receiver: PayloadReceiver)
        ensures
            receiver@ == Set::<(Digest, WorkerId)>::empty(),
    {
        let receiver = PayloadReceiver { announced: Vec::new() };
        assert(receiver@ =~= Set::<(Digest, WorkerId)>::empty());
        receiver
    }

    /// Whether the worker `worker_id` has announced `digest`.
    pub fn holds(&self, digest: &Digest, worker_id: WorkerId) -> (yes: bool)
        ensures
            yes == self@.contains((*digest, worker_id)),
    {
        let mut i: usize = 0;
        while i < self.announced.len()
            invariant
                i <= self.announced.len(),
                forall|k: int| 0 <= k < i ==> self.announced@[k] != (*digest, worker_id),
            decreases self.announced.len() - i,
        {
            if self.announced[i].0 == *digest && self.announced[i].1 == worker_id {
                assert(self.announced@[i as int] == (*digest, worker_id));
                return true;
            }
            i += 1;
        }
        false
    }

    /// Records that the worker `worker_id` has announced `digest`. An
    /// announcement that is repeated changes nothing.
    pub fn record(&mut self, digest: Digest, worker_id: WorkerId)
        ensures
            final(self)@ == old(self)@.insert((digest, worker_id)),
    {
        if !self.holds(&digest, worker_id) {
            self.announced.push((digest, worker_id));
            proof {
                old(self).announced@.lemma_push_to_set_commute((digest, worker_id));
            }
        } else {
            assert(old(self)@.insert((digest, worker_id)) =~= old(self)@);
        }
    }
}

} // verus!
