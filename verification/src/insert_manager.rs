//! Batching of writes: statements wait in a buffer until their number
//! reaches a threshold, and then leave together as one transaction.
//!
//! Two kinds of statement are told apart. A primary write stands for a row
//! of a source and counts toward the progress of the merge; a supporting
//! write keeps the books of the identity maps and does not count. Both are
//! committed alike.

use crate::text::{joined, push_joined, texts};
use vstd::prelude::*;

verus! {

/// The statements of one transaction, and the number of primary writes
/// among them.
#[derive(Debug)]
pub struct Batch {
    /// The transaction as text: to be executed as it is.
    pub sql: String,
    /// The number of primary writes that the transaction commits.
    pub count: u64,
}

pub struct BatchView {
    pub sql: Seq<char>,
    pub count: nat,
}

impl View for Batch {
    type V = BatchView;

    open spec fn view(&self) -> BatchView {
        BatchView { sql: self.sql@, count: self.count as nat }
    }
}

/// The views of a list of batches.
pub open spec fn batch_views(batches: Seq<Batch>) -> Seq<BatchView> {
    Seq::new(batches.len(), |i: int| batches[i]@)
}

/// The text of the transaction that commits `statements`.
pub open spec fn batch_sql(statements: Seq<Seq<char>>) -> Seq<char> {
    "BEGIN TRANSACTION; "@ + joined(statements, "; "@) + "; COMMIT;"@
}

pub struct InsertManagerView {
    pub threshold: u64,
    /// The statements that wait, oldest first.
    pub statements: Seq<Seq<char>>,
    /// The number of primary writes among them.
    pub count: nat,
}

impl InsertManagerView {
    /// The buffer with nothing waiting.
    pub open spec fn emptied(self) -> InsertManagerView {
        InsertManagerView { threshold: self.threshold, statements: Seq::empty(), count: 0 }
    }

    /// Everything that waits, as one batch.
    pub open spec fn batch(self) -> BatchView {
        BatchView { sql: batch_sql(self.statements), count: self.count }
    }

    /// The buffer with one statement more.
    pub open spec fn with(self, statement: Seq<char>, primary: bool) -> InsertManagerView {
        InsertManagerView {
            threshold: self.threshold,
            statements: self.statements.push(statement),
            count: if primary {
                self.count + 1
            } else {
                self.count
            },
        }
    }

    /// The buffer after a write, and the batch that leaves where the write
    /// brought the number of waiting statements to the threshold.
    pub open spec fn after_write(self, statement: Seq<char>, primary: bool) -> (
        InsertManagerView,
        Option<BatchView>,
    ) {
        let filled = self.with(statement, primary);
        if filled.statements.len() >= self.threshold {
            (filled.emptied(), Some(filled.batch()))
        } else {
            (filled, None)
        }
    }
}

/// The buffer of the statements that wait for their transaction.
pub struct InsertManager {
    threshold: u64,
    statements: Vec<String>,
    count: usize,
}

impl View for InsertManager {
    type V = InsertManagerView;

    closed spec fn view(&self) -> InsertManagerView {
        InsertManagerView {
            threshold: self.threshold,
            statements: texts(self.statements@),
            count: self.count as nat,
        }
    }
}

impl InsertManager {
    /// The count of primary writes is no more than the statements that wait.
    pub closed spec fn wf(&self) -> bool {
        self.count <= self.statements.len()
    }

    /// An empty buffer that commits as soon as it holds `threshold`
    /// statements.
    pub fn new(threshold: u64) -> (manager: InsertManager)
        ensures
            manager.wf(),
            manager@.threshold == threshold,
            manager@.statements.len() == 0,
            manager@.count == 0,
    {
        InsertManager { threshold, statements: Vec::new(), count: 0 }
    }

    /// The number of statements that wait.
    pub fn pending(&self) -> (n: usize)
        ensures
            n == self@.statements.len(),
    {
        self.statements.len()
    }

    /// Adds a primary write. Where that fills the buffer, everything that
    /// waits leaves as one batch.
    pub fn insert(&mut self, statement: String) -> (flushed: Option<Batch>)
        requires
            old(self).wf(),
        ensures
            final(self).wf(),
            final(self)@ == old(self)@.after_write(statement@, true).0,
            match flushed {
                Some(batch) => old(self)@.after_write(statement@, true).1 == Some(batch@),
                None => old(self)@.after_write(statement@, true).1 is None,
            },
    {
        let ghost before = texts(self.statements@);
        self.statements.push(statement);
        assert(texts(self.statements@) =~= before.push(statement@));
        let waiting = self.statements.len();
        assert(self.count < waiting);
        self.count = self.count + 1;
        self.maybe_flush()
    }

    /// Adds a supporting write. Where that fills the buffer, everything that
    /// waits leaves as one batch.
    pub fn insert_supporting(&mut self, statement: String) -> (flushed: Option<Batch>)
        requires
            old(self).wf(),
        ensures
            final(self).wf(),
            final(self)@ == old(self)@.after_write(statement@, false).0,
            match flushed {
                Some(batch) => old(self)@.after_write(statement@, false).1 == Some(batch@),
                None => old(self)@.after_write(statement@, false).1 is None,
            },
    {
        let ghost before = texts(self.statements@);
        self.statements.push(statement);
        assert(texts(self.statements@) =~= before.push(statement@));
        self.maybe_flush()
    }

    fn maybe_flush(&mut self) -> (flushed: Option<Batch>)
        requires
            old(self).wf(),
        ensures
            final(self).wf(),
            match flushed {
                Some(batch) => {
                    &&& old(self)@.statements.len() >= old(self)@.threshold
                    &&& batch@ == old(self)@.batch()
                    &&& final(self)@ == old(self)@.emptied()
                },
                None => old(self)@.statements.len() < old(self)@.threshold && final(self)@ == old(
                    self,
                )@,
            },
    {
        if self.statements.len() as u64 >= self.threshold {
            Some(self.take())
        } else {
            None
        }
    }

    fn take(&mut self) -> (batch: Batch)
        requires
            old(self).wf(),
        ensures
            final(self).wf(),
            batch@ == old(self)@.batch(),
            final(self)@ == old(self)@.emptied(),
    {
        let mut sql = String::from_str("BEGIN TRANSACTION; ");
        push_joined(&mut sql, &self.statements, "; ");
        sql.append("; COMMIT;");
        self.statements.clear();
        let count = self.count as u64;
        self.count = 0;
        assert(texts(self.statements@) =~= Seq::<Seq<char>>::empty());
        Batch { sql, count }
    }

    /// Takes everything that waits as one batch, whatever its number.
    pub fn flush(&mut self) -> (batch: Batch)
        requires
            old(self).wf(),
        ensures
            final(self).wf(),
            batch@ == old(self)@.batch(),
            final(self)@ == old(self)@.emptied(),
    {
        self.take()
    }
}

} // verus!
