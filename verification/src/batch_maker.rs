//! The batch maker: assembles the transactions of clients into batches that
//! are sealed by size or by time.

use crate::messages::{transactions_view, Block, Transaction, TransactionView};
use crate::types::Digest;
use vstd::prelude::*;

verus! {

/// The bytes that a list of transactions adds up to.
pub open spec fn batch_bytes(txs: Seq<TransactionView>) -> nat
    decreases txs.len(),
{
    if txs.len() == 0 {
        0
    } else {
        batch_bytes(txs.drop_last()) + txs.last().size()
    }
}

/// The identifier of a batch whose first transaction has the id `id`: the
/// first 32 bytes of the id, filled up with zero bytes where the id is
/// shorter.
pub open spec fn batch_id(id: Seq<u8>) -> Seq<u8> {
    Seq::new(
        32,
        |i: int|
            if i < id.len() {
                id[i]
            } else {
                0u8
            },
    )
}

/// A sealed batch as it leaves the batch maker.
pub struct SealedBatchView {
    pub txs: Seq<TransactionView>,
    pub digest: Seq<u8>,
}

/// What reaches the batch maker.
pub enum BatchEvent {
    /// A transaction of a client.
    Transaction(TransactionView),
    /// The batch delay has passed.
    Timer,
}

/// The state of a batch maker.
pub struct BatchMakerView {
    /// The size in bytes at which a batch is sealed.
    pub batch_size: nat,
    /// The transactions of the batch that is being assembled.
    pub current_batch: Seq<TransactionView>,
}

impl BatchMakerView {
    /// The batch maker that holds no transaction.
    pub open spec fn new(batch_size: nat) -> BatchMakerView {
        BatchMakerView { batch_size, current_batch: Seq::empty() }
    }

    /// The batch that sealing gives: all transactions held, in order, under
    /// the identifier made of the first one's id.
    pub open spec fn sealed(self) -> SealedBatchView {
        SealedBatchView { txs: self.current_batch, digest: batch_id(self.current_batch[0].id) }
    }

    /// The batch maker after sealing: it holds no transaction.
    pub open spec fn emptied(self) -> BatchMakerView {
        BatchMakerView { current_batch: Seq::empty(), ..self }
    }

    /// A transaction arrives: it joins the batch, and the batch is sealed if
    /// it has reached `batch_size` bytes.
    pub open spec fn push(self, tx: TransactionView) -> (BatchMakerView, Option<SealedBatchView>) {
        let grown = BatchMakerView { current_batch: self.current_batch.push(tx), ..self };
        if batch_bytes(grown.current_batch) >= self.batch_size {
            (grown.emptied(), Some(grown.sealed()))
        } else {
            (grown, None)
        }
    }

    /// The batch delay has passed: a batch that holds a transaction is
    /// sealed.
    pub open spec fn tick(self) -> (BatchMakerView, Option<SealedBatchView>) {
        if self.current_batch.len() > 0 {
            (self.emptied(), Some(self.sealed()))
        } else {
            (self, None)
        }
    }

    /// What one event does.
    pub open spec fn handle(self, event: BatchEvent) -> (BatchMakerView, Option<SealedBatchView>) {
        match event {
            BatchEvent::Transaction(tx) => self.push(tx),
            BatchEvent::Timer => self.tick(),
        }
    }

    /// What a list of events does, and the batches that are sealed on the
    /// way, in order.
    pub open spec fn run(self, events: Seq<BatchEvent>) -> (BatchMakerView, Seq<SealedBatchView>)
        decreases events.len(),
    {
        if events.len() == 0 {
            (self, seq![])
        } else {
            let (before, batches) = self.run(events.drop_last());
            let (after, made) = before.handle(events.last());
            match made {
                Some(batch) => (after, batches.push(batch)),
                None => (after, batches),
            }
        }
    }
}

/// The transactions of a list of events, in order.
pub open spec fn arrived(events: Seq<BatchEvent>) -> Seq<TransactionView>
    decreases events.len(),
{
    if events.len() == 0 {
        seq![]
    } else {
        match events.last() {
            BatchEvent::Transaction(tx) => arrived(events.drop_last()).push(tx),
            BatchEvent::Timer => arrived(events.drop_last()),
        }
    }
}

/// The transactions of a list of batches, in order.
pub open spec fn contents(batches: Seq<SealedBatchView>) -> Seq<TransactionView>
    decreases batches.len(),
{
    if batches.len() == 0 {
        seq![]
    } else {
        contents(batches.drop_last()) + batches.last().txs
    }
}

/// No transaction is lost or duplicated across seals: whatever reaches a
/// batch maker that starts with nothing, the sealed batches, one after the
/// other, and then the batch that is held are the transactions that
/// arrived, each once, in the order of arrival. No sealed batch is empty,
/// each has the identifier made of its first transaction's id, and the
/// batch held is smaller than the sealing size.
pub proof fn lemma_no_transaction_lost(batch_size: nat, events: Seq<BatchEvent>)
    ensures
        contents(BatchMakerView::new(batch_size).run(events).1) + BatchMakerView::new(
            batch_size,
        ).run(events).0.current_batch == arrived(events),
        BatchMakerView::new(batch_size).run(events).0.batch_size == batch_size,
        BatchMakerView::new(batch_size).run(events).0.current_batch.len() > 0 ==> batch_bytes(
            BatchMakerView::new(batch_size).run(events).0.current_batch,
        ) < batch_size,
        forall|i: int|
            0 <= i < BatchMakerView::new(batch_size).run(events).1.len() ==> {
                let batch = #[trigger] BatchMakerView::new(batch_size).run(events).1[i];
                batch.txs.len() > 0 && batch.digest == batch_id(batch.txs[0].id)
            },
    decreases events.len(),
{
    let start = BatchMakerView::new(batch_size);
    if events.len() == 0 {
        assert(contents(start.run(events).1) + start.current_batch =~= arrived(events));
    } else {
        lemma_no_transaction_lost(batch_size, events.drop_last());
        let (before, batches) = start.run(events.drop_last());
        let (after, made) = before.handle(events.last());
        match made {
            Some(batch) => {
                let all = batches.push(batch);
                assert(all.drop_last() =~= batches);
                assert(all.last() == batch);
                assert(contents(all) + after.current_batch =~= arrived(events));
            },
            None => {
                assert(contents(batches) + after.current_batch =~= arrived(events));
            },
        }
    }
}

/// A batch that has been sealed: its transactions in the order of arrival,
/// and its identifier.
#[derive(Debug, PartialEq, Eq)]
pub struct SealedBatch {
    pub block: Block,
    pub digest: Digest,
}

impl View for SealedBatch {
    type V = SealedBatchView;

    open spec fn view(&self) -> SealedBatchView {
        SealedBatchView { txs: self.block@, digest: self.digest@ }
    }
}

/// Assembles the transactions of clients into batches.
#[derive(Debug)]
pub struct BatchMaker {
    batch_size: usize,
    current_batch: Vec<Transaction>,
    current_batch_size: usize,
}

impl View for BatchMaker {
    type V = BatchMakerView;

    closed spec fn view(&self) -> BatchMakerView {
        BatchMakerView {
            batch_size: self.batch_size as nat,
            current_batch: transactions_view(self.current_batch@),
        }
    }
}

/// The identifier of a batch whose first transaction has the id `id`.
pub fn make_batch_id(id: &Vec<u8>) -> (digest: Digest)
    ensures
        digest@ == batch_id(id@),
{
    let mut bytes = [0u8; 32];
    let mut i: usize = 0;
    while i < 32 && i < id.len()
        invariant
            i <= 32,
            i <= id.len(),
            forall|k: int| 0 <= k < i ==> bytes@[k] == id@[k],
            forall|k: int| i <= k < 32 ==> bytes@[k] == 0u8,
        decreases 32 - i,
    {
        bytes[i] = id[i];
        i += 1;
    }
    let digest = Digest::new(bytes);
    assert(digest@ =~= batch_id(id@));
    digest
}

impl BatchMaker {
    /// The size counter is the size of the batch held, and a batch that is
    /// held has not reached the sealing size.
    pub closed spec fn wf(&self) -> bool {
        &&& self.current_batch_size == batch_bytes(self@.current_batch)
        &&& self.current_batch@.len() > 0 ==> self.current_batch_size < self.batch_size
    }

    /// A batch maker that seals at `batch_size` bytes and holds nothing.
    pub fn new(batch_size: usize) -> (maker: BatchMaker)
        ensures
            maker.wf(),
            maker@ == BatchMakerView::new(batch_size as nat),
    {
        let maker = BatchMaker { batch_size, current_batch: Vec::new(), current_batch_size: 0 };
        assert(maker@.current_batch =~= Seq::empty());
        maker
    }

    /// The number of transactions held.
    pub fn len(&self) -> (n: usize)
        ensures
            n == self@.current_batch.len(),
    {
        self.current_batch.len()
    }

    /// The size in bytes of the batch held.
    pub fn size(&self) -> (bytes: usize)
        requires
            self.wf(),
        ensures
            bytes == batch_bytes(self@.current_batch),
    {
        self.current_batch_size
    }

    /// Seals the batch held: hands out its transactions in the order of
    /// arrival under the identifier made of the first one's id, and holds
    /// nothing afterwards.
    pub fn seal(&mut self) -> (batch: SealedBatch)
        requires
            old(self)@.current_batch.len() > 0,
        ensures
            final(self).wf(),
            final(self)@ == old(self)@.emptied(),
            batch@ == old(self)@.sealed(),
    {
        let digest = make_batch_id(&self.current_batch[0].id);
        let mut txs: Vec<Transaction> = Vec::new();
        core::mem::swap(&mut txs, &mut self.current_batch);
        self.current_batch_size = 0;
        assert(self@.current_batch =~= Seq::empty());
        SealedBatch { block: Block { txs }, digest }
    }

    /// Takes a transaction of a client into the batch, and seals the batch
    /// if it has reached the sealing size. After a seal the caller starts
    /// the batch delay anew.
    pub fn push(&mut self, tx: Transaction) -> (made: Option<SealedBatch>)
        requires
            old(self).wf(),
        ensures
            final(self).wf(),
            final(self)@ == old(self)@.push(tx@).0,
            match made {
                Some(batch) => old(self)@.push(tx@).1 == Some(batch@),
                None => old(self)@.push(tx@).1 is None,
            },
    {
        let grown: u128 = self.current_batch_size as u128 + tx.payload.len() as u128 + 32;
        let ghost before = self@.current_batch;
        self.current_batch.push(tx);
        proof {
            let after = self@.current_batch;
            assert(after =~= before.push(tx@));
            assert(after.drop_last() =~= before);
            assert(after.last() == tx@);
            assert(grown == batch_bytes(after));
        }
        if grown >= self.batch_size as u128 {
            Some(self.seal())
        } else {
            self.current_batch_size = grown as usize;
            None
        }
    }

    /// The batch delay has passed: seals the batch if it holds a
    /// transaction. The caller starts the batch delay anew.
    pub fn tick(&mut self) -> (made: Option<SealedBatch>)
        requires
            old(self).wf(),
        ensures
            final(self).wf(),
            final(self)@ == old(self)@.tick().0,
            match made {
                Some(batch) => old(self)@.tick().1 == Some(batch@),
                None => old(self)@.tick().1 is None,
            },
    {
        if self.current_batch.len() > 0 {
            Some(self.seal())
        } else {
            None
        }
    }
}

} // verus!
