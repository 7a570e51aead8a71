//! The merge of one table: which source is scanned first, what becomes of
//! each scanned row, and the statements that carry it out.
//!
//! The sources are scanned one after the other, the one with the most rows
//! first. A row of that first source goes into the destination under its own
//! key, unchecked. A row of another source is first looked up in the
//! destination by the uniqueness constraint of the table: where it is found
//! only the identity map learns of it, and otherwise it goes in under a new
//! key.

use crate::insert_manager::{batch_views, Batch, BatchView, InsertManager, InsertManagerView};
use crate::plan::{MergePlan, MergePlanView, SourceRow, SourceRowView};
use vstd::prelude::*;

verus! {

/// What a source is to the merge of one table.
#[derive(Debug, Clone, Copy, PartialEq, Eq, Structural)]
pub enum SourceRole {
    /// The source with the most rows: copied without looking for
    /// duplicates.
    Primary,
    /// Any other source: each row is looked up before it is inserted.
    Secondary,
}

/// The sum of the counts.
pub open spec fn sum_of(counts: Seq<u64>) -> nat
    decreases counts.len(),
{
    if counts.len() == 0 {
        0
    } else {
        sum_of(counts.drop_last()) + counts.last() as nat
    }
}

/// `p` is the first source among those with the greatest count.
pub open spec fn is_primary(counts: Seq<u64>, p: int) -> bool {
    &&& 0 <= p < counts.len()
    &&& forall|i: int| 0 <= i < counts.len() ==> counts[i] <= counts[p]
    &&& forall|i: int| 0 <= i < p ==> counts[i] < counts[p]
}

/// The order in which `n` sources are scanned when `p` is the primary one:
/// `p` first, then the others as they stand.
pub open spec fn scan_order(n: nat, p: int) -> Seq<int> {
    Seq::new(
        n,
        |k: int|
            if k == 0 {
                p
            } else if k <= p {
                k - 1
            } else {
                k
            },
    )
}

/// The primary source for a table of which the sources hold `counts` rows:
/// the first of those that hold the most. Without sources there is none.
pub fn primary_source(counts: &Vec<u64>) -> (primary: Option<usize>)
    ensures
        match primary {
            Some(p) => is_primary(counts@, p as int),
            None => counts.len() == 0,
        },
{
    if counts.len() == 0 {
        return None;
    }
    let mut best: usize = 0;
    let mut i: usize = 1;
    while i < counts.len()
        invariant
            1 <= i <= counts.len(),
            best < i,
            forall|j: int| 0 <= j < i ==> counts[j] <= counts[best as int],
            forall|j: int| 0 <= j < best ==> counts[j] < counts[best as int],
        decreases counts.len() - i,
    {
        if counts[i] > counts[best] {
            best = i;
        }
        i = i + 1;
    }
    Some(best)
}

/// The number of rows that all the sources hold together, where it fits.
pub fn total_rows(counts: &Vec<u64>) -> (total: Option<u64>)
    ensures
        match total {
            Some(n) => n == sum_of(counts@),
            None => sum_of(counts@) > u64::MAX,
        },
{
    let mut total: u64 = 0;
    let mut i: usize = 0;
    while i < counts.len()
        invariant
            i <= counts.len(),
            total == sum_of(counts@.take(i as int)),
        decreases counts.len() - i,
    {
        proof {
            assert(counts@.take(i as int + 1).drop_last() =~= counts@.take(i as int));
            lemma_sum_grows(counts@, i as int + 1);
        }
        match total.checked_add(counts[i]) {
            Some(sum) => {
                total = sum;
            },
            None => {
                return None;
            },
        }
        i = i + 1;
    }
    assert(counts@.take(counts.len() as int) =~= counts@);
    Some(total)
}

/// The sum of a part is no more than the sum of the whole.
proof fn lemma_sum_grows(counts: Seq<u64>, k: int)
    requires
        0 <= k <= counts.len(),
    ensures
        sum_of(counts.take(k)) <= sum_of(counts),
    decreases counts.len() - k,
{
    if k < counts.len() {
        assert(counts.take(k + 1).drop_last() =~= counts.take(k));
        lemma_sum_grows(counts, k + 1);
    } else {
        assert(counts.take(k) =~= counts);
    }
}

/// The order in which the sources are scanned: the primary one first, then
/// the others as they stand.
pub fn source_order(counts: &Vec<u64>) -> (order: Vec<usize>)
    ensures
        order.len() == counts.len(),
        counts.len() > 0 ==> exists|p: int|
            is_primary(counts@, p) && #[trigger] scan_order(counts.len() as nat, p)
                == crate::order::positions(order@),
{
    let mut order: Vec<usize> = Vec::new();
    match primary_source(counts) {
        None => order,
        Some(p) => {
            order.push(p);
            let mut i: usize = 0;
            while i < counts.len()
                invariant
                    i <= counts.len(),
                    p < counts.len(),
                    order.len() == (if i <= p {
                        i + 1
                    } else {
                        i as int
                    }),
                    forall|k: int|
                        0 <= k < order.len() ==> #[trigger] order[k] as int == scan_order(
                            counts.len() as nat,
                            p as int,
                        )[k],
                decreases counts.len() - i,
            {
                if i != p {
                    order.push(i);
                }
                i = i + 1;
            }
            assert(scan_order(counts.len() as nat, p as int) =~= crate::order::positions(order@));
            order
        },
    }
}

/// What becomes of a scanned row.
#[derive(Debug)]
pub enum RowOutcome {
    /// The destination holds the row already, under the quoted key
    /// `existing_id`: only the identity map learns of the row.
    Duplicate { old_pk: String, existing_id: String },
    /// The row goes into the destination under the key `new_pk`.
    Inserted { old_pk: String, new_pk: String },
}

pub enum RowOutcomeView {
    Duplicate { old_pk: Seq<char>, existing_id: Seq<char> },
    Inserted { old_pk: Seq<char>, new_pk: Seq<char> },
}

impl View for RowOutcome {
    type V = RowOutcomeView;

    open spec fn view(&self) -> RowOutcomeView {
        match self {
            RowOutcome::Duplicate { old_pk, existing_id } => RowOutcomeView::Duplicate {
                old_pk: old_pk@,
                existing_id: existing_id@,
            },
            RowOutcome::Inserted { old_pk, new_pk } => RowOutcomeView::Inserted {
                old_pk: old_pk@,
                new_pk: new_pk@,
            },
        }
    }
}

/// Whether a row is looked up in the destination before it is inserted: a
/// row of a secondary source, for a table with a uniqueness constraint.
pub open spec fn is_checked(role: SourceRole, constrained: bool) -> bool {
    role == SourceRole::Secondary && constrained
}

/// What becomes of the row `old_pk`. A row that was looked up and found,
/// under the key `existing`, is a duplicate. Any other row is inserted: a row
/// of the primary source under its own key, a row of a secondary source under
/// the key `fresh`.
pub open spec fn decide(
    role: SourceRole,
    constrained: bool,
    old_pk: Seq<char>,
    existing: Option<Seq<char>>,
    fresh: Seq<char>,
) -> RowOutcomeView {
    if is_checked(role, constrained) && existing is Some {
        RowOutcomeView::Duplicate { old_pk, existing_id: existing->0 }
    } else if role == SourceRole::Primary {
        RowOutcomeView::Inserted { old_pk, new_pk: old_pk }
    } else {
        RowOutcomeView::Inserted { old_pk, new_pk: fresh }
    }
}

/// A statement and whether it is a primary write.
pub struct Write {
    pub sql: Seq<char>,
    pub primary: bool,
}

impl MergePlanView {
    /// The statements that carry out what becomes of a row: for a duplicate
    /// the entry of the identity map alone, which stands for the row and so
    /// is a primary write; for an inserted row the insert, and the entry of
    /// the identity map as a supporting write.
    pub open spec fn writes(self, outcome: RowOutcomeView, row: SourceRowView) -> Seq<Write> {
        match outcome {
            RowOutcomeView::Duplicate { old_pk, existing_id } => seq![
                Write { sql: self.map_existing_sql(old_pk, existing_id), primary: true },
            ],
            RowOutcomeView::Inserted { old_pk, new_pk } => seq![
                Write { sql: self.insert_sql(new_pk, row.values), primary: true },
                Write { sql: self.map_new_sql(old_pk, new_pk), primary: false },
            ],
        }
    }
}

impl InsertManagerView {
    /// The buffer after `writes`, and the batches that left on the way.
    pub open spec fn after_writes(self, writes: Seq<Write>) -> (
        InsertManagerView,
        Seq<BatchView>,
    )
        decreases writes.len(),
    {
        if writes.len() == 0 {
            (self, Seq::empty())
        } else {
            let (before, batches) = self.after_writes(writes.drop_last());
            let (after, flushed) = before.after_write(writes.last().sql, writes.last().primary);
            match flushed {
                Some(batch) => (after, batches.push(batch)),
                None => (after, batches),
            }
        }
    }
}

/// Why a row was not merged.
#[derive(Debug, Clone, Copy, PartialEq, Eq, Structural)]
pub enum RowError {
    /// Every source has been scanned to its end.
    Finished,
    /// The row does not hold one value for each scanned column.
    WrongWidth,
}

/// The state of the merge of one table.
pub struct TableMergeView {
    pub plan: MergePlanView,
    /// The sources in the order of their scan.
    pub sources: Seq<int>,
    /// The number of sources that have been scanned to their end.
    pub position: nat,
    pub buffer: InsertManagerView,
    /// The number of rows that were given up.
    pub skipped: nat,
}

/// Where the merge of a table stands.
#[derive(Debug, Clone, Copy, PartialEq, Eq, Structural)]
pub enum MergeState {
    /// The primary source is under scan.
    ScanningPrimary,
    /// The secondary source of this number, counted from zero in the order
    /// of the scan, is under scan.
    ScanningSecondary(usize),
    /// Every source has been scanned to its end.
    Done,
}

impl TableMergeView {
    pub open spec fn is_done(self) -> bool {
        self.position >= self.sources.len()
    }

    pub open spec fn state(self) -> MergeState {
        if self.is_done() {
            MergeState::Done
        } else if self.position == 0 {
            MergeState::ScanningPrimary
        } else {
            MergeState::ScanningSecondary((self.position - 1) as usize)
        }
    }

    /// What the source under scan is to the table: the first in the order is
    /// the primary source.
    pub open spec fn role(self) -> Option<SourceRole> {
        if self.is_done() {
            None
        } else if self.position == 0 {
            Some(SourceRole::Primary)
        } else {
            Some(SourceRole::Secondary)
        }
    }

    /// The source under scan.
    pub open spec fn current_source(self) -> Option<int> {
        if self.is_done() {
            None
        } else {
            Some(self.sources[self.position as int])
        }
    }

    /// Whether a row that the lookup found under `existing`, or did not
    /// find, needs a new key: a row of a secondary source that is no
    /// duplicate.
    pub open spec fn needs_fresh_key(self, existing: Option<Seq<char>>) -> bool {
        self.role() == Some(SourceRole::Secondary) && !(self.plan.unique is Some && existing is Some)
    }

    /// The query that looks `row` up in the destination, where it has to be
    /// looked up.
    pub open spec fn duplicate_check(self, row: SourceRowView) -> Option<Seq<char>> {
        match self.role() {
            Some(role) => if is_checked(role, self.plan.unique is Some) && row.values.len()
                == self.plan.columns.len() {
                self.plan.check_for(row)
            } else {
                None
            },
            None => None,
        }
    }

    /// What becomes of `row`, the state after it, and the batches to commit.
    pub open spec fn place(
        self,
        row: SourceRowView,
        existing: Option<Seq<char>>,
        fresh: Seq<char>,
    ) -> Result<(RowOutcomeView, TableMergeView, Seq<BatchView>), RowError> {
        match self.role() {
            None => Err(RowError::Finished),
            Some(role) => if row.values.len() != self.plan.columns.len() {
                Err(RowError::WrongWidth)
            } else {
                let outcome = decide(role, self.plan.unique is Some, row.old_pk, existing, fresh);
                let (buffer, batches) = self.buffer.after_writes(self.plan.writes(outcome, row));
                Ok((outcome, TableMergeView { buffer, ..self }, batches))
            },
        }
    }

    /// The state after the source under scan has come to its end.
    pub open spec fn after_source(self) -> TableMergeView {
        TableMergeView {
            buffer: self.buffer.emptied(),
            position: if self.is_done() {
                self.position
            } else {
                self.position + 1
            },
            ..self
        }
    }
}

/// A character of an identifier: a lower-case hexadecimal digit or a hyphen.
pub open spec fn is_identifier_char(c: char) -> bool {
    ('0' <= c && c <= '9') || ('a' <= c && c <= 'f') || c == '-'
}

/// An identifier as it is minted: 36 characters, each a lower-case
/// hexadecimal digit or a hyphen.
pub open spec fn is_identifier(id: Seq<char>) -> bool {
    id.len() == 36 && forall|i: int| 0 <= i < id.len() ==> is_identifier_char(#[trigger] id[i])
}

/// `Uuid::new_v4` draws a random identifier, and its `to_string` writes it
/// in the hyphenated form: 32 lower-case hexadecimal digits in five groups,
/// with a hyphen between neighbours. Nothing is claimed of which identifier
/// comes.
#[verifier::external_body]
fn fresh_identifier() -> (id: String)
    ensures
        is_identifier(id@),
{
    uuid::Uuid::new_v4().to_string()
}

/// The merge of one table.
pub struct TableMerge {
    plan: MergePlan,
    sources: Vec<usize>,
    position: usize,
    buffer: InsertManager,
    skipped: u64,
}

impl View for TableMerge {
    type V = TableMergeView;

    closed spec fn view(&self) -> TableMergeView {
        TableMergeView {
            plan: self.plan@,
            sources: crate::order::positions(self.sources@),
            position: self.position as nat,
            buffer: self.buffer@,
            skipped: self.skipped as nat,
        }
    }
}

impl TableMerge {
    /// The buffer is well formed and the position lies within the sources.
    pub closed spec fn wf(&self) -> bool {
        &&& self.buffer.wf()
        &&& self.position <= self.sources.len()
    }

    /// The merge of the table of `plan` from sources that hold `counts` rows
    /// of it, with batches of `threshold` statements.
    pub fn begin(plan: MergePlan, counts: &Vec<u64>, threshold: u64) -> (merge: TableMerge)
        ensures
            merge.wf(),
            merge@.plan == plan@,
            merge@.position == 0,
            merge@.skipped == 0,
            merge@.buffer.threshold == threshold,
            merge@.buffer.statements.len() == 0,
            merge@.buffer.count == 0,
            merge@.sources.len() == counts.len(),
            counts.len() > 0 ==> exists|p: int|
                is_primary(counts@, p) && #[trigger] scan_order(counts.len() as nat, p)
                    == merge@.sources,
    {
        TableMerge {
            plan,
            sources: source_order(counts),
            position: 0,
            buffer: InsertManager::new(threshold),
            skipped: 0,
        }
    }

    /// The plan of the merge.
    pub fn plan(&self) -> (plan: &MergePlan)
        ensures
            plan@ == self@.plan,
    {
        &self.plan
    }

    /// Whether every source has been scanned to its end.
    pub fn is_done(&self) -> (done: bool)
        requires
            self.wf(),
        ensures
            done == self@.is_done(),
    {
        self.position >= self.sources.len()
    }

    /// Where the merge stands.
    pub fn state(&self) -> (state: MergeState)
        requires
            self.wf(),
        ensures
            state == self@.state(),
    {
        if self.position >= self.sources.len() {
            MergeState::Done
        } else if self.position == 0 {
            MergeState::ScanningPrimary
        } else {
            MergeState::ScanningSecondary(self.position - 1)
        }
    }

    /// What the source under scan is to the table.
    pub fn role(&self) -> (role: Option<SourceRole>)
        requires
            self.wf(),
        ensures
            role == self@.role(),
    {
        if self.position >= self.sources.len() {
            None
        } else if self.position == 0 {
            Some(SourceRole::Primary)
        } else {
            Some(SourceRole::Secondary)
        }
    }

    /// The source to scan now.
    pub fn current_source(&self) -> (source: Option<usize>)
        requires
            self.wf(),
        ensures
            match self@.current_source() {
                Some(s) => source == Some(s as usize) && s == source->0,
                None => source is None,
            },
    {
        if self.position >= self.sources.len() {
            None
        } else {
            Some(self.sources[self.position])
        }
    }

    /// The number of rows that were given up.
    pub fn skipped(&self) -> (n: u64)
        ensures
            n == self@.skipped,
    {
        self.skipped
    }

    /// The query to run on the destination before `row` is merged, where the
    /// row has to be looked up: it gives the quoted key of a row that holds
    /// the same values in the columns of the uniqueness constraint, if there
    /// is one.
    pub fn duplicate_check(&self, row: &SourceRow) -> (sql: Option<String>)
        requires
            self.wf(),
        ensures
            match self@.duplicate_check(row@) {
                Some(text) => sql matches Some(s) && s@ == text,
                None => sql is None,
            },
    {
        match self.role() {
            Some(SourceRole::Secondary) => self.plan.check_sql(row),
            _ => None,
        }
    }

    /// Whether a row that the lookup found under `existing`, or did not find,
    /// needs a new key.
    pub fn needs_fresh_key(&self, existing: &Option<String>) -> (needed: bool)
        requires
            self.wf(),
        ensures
            needed == self@.needs_fresh_key(option_text(*existing)),
    {
        match self.role() {
            Some(SourceRole::Secondary) => !(self.plan.has_unique() && existing.is_some()),
            _ => false,
        }
    }

    /// Merges `row`, which the lookup found under the quoted key `existing`
    /// or did not find, and for which `fresh` is the new key if it needs
    /// one. Gives what became of the row and the batches to commit, oldest
    /// first.
    pub fn place_row(&mut self, row: &SourceRow, existing: Option<String>, fresh: String) -> (result:
        Result<(RowOutcome, Vec<Batch>), RowError>)
        requires
            old(self).wf(),
        ensures
            final(self).wf(),
            old(self)@.place(row@, option_text(existing), fresh@) == placed(result, final(self)@),
            result is Err ==> final(self)@ == old(self)@,
    {
        let role = match self.role() {
            Some(role) => role,
            None => {
                return Err(RowError::Finished);
            },
        };
        if row.values.len() != self.plan.width() {
            return Err(RowError::WrongWidth);
        }
        let mut batches: Vec<Batch> = Vec::new();
        let ghost before = self.buffer@;
        let ghost plan = self.plan@;
        let secondary = match role {
            SourceRole::Primary => false,
            SourceRole::Secondary => true,
        };
        let outcome = if secondary && self.plan.has_unique() && existing.is_some() {
            let existing_id = existing.unwrap();
            let sql = self.plan.map_existing_sql(row.old_pk.as_str(), existing_id.as_str());
            let outcome = RowOutcome::Duplicate { old_pk: row.old_pk.clone(), existing_id };
            proof {
                reveal_with_fuel(InsertManagerView::after_writes, 2);
                let writes = plan.writes(outcome@, row@);
                assert(writes.drop_last() =~= Seq::<Write>::empty());
            }
            if let Some(batch) = self.buffer.insert(sql) {
                batches.push(batch);
            }
            outcome
        } else {
            let new_pk = if secondary {
                fresh
            } else {
                row.old_pk.clone()
            };
            let insert = self.plan.insert_sql(new_pk.as_str(), row);
            let entry = self.plan.map_new_sql(row.old_pk.as_str(), new_pk.as_str());
            let outcome = RowOutcome::Inserted { old_pk: row.old_pk.clone(), new_pk };
            proof {
                reveal_with_fuel(InsertManagerView::after_writes, 3);
                let writes = plan.writes(outcome@, row@);
                assert(writes.drop_last() =~= seq![writes[0]]);
                assert(writes.drop_last().drop_last() =~= Seq::<Write>::empty());
            }
            if let Some(batch) = self.buffer.insert(insert) {
                batches.push(batch);
            }
            if let Some(batch) = self.buffer.insert_supporting(entry) {
                batches.push(batch);
            }
            outcome
        };
        proof {
            assert(batch_views(batches@) =~= before.after_writes(plan.writes(outcome@, row@)).1);
        }
        Ok((outcome, batches))
    }

    /// Merges `row`, which the lookup found under the quoted key `existing`
    /// or did not find. A row that needs a new key gets a newly minted
    /// identifier.
    pub fn merge_row(&mut self, row: &SourceRow, existing: Option<String>) -> (result: Result<
        (RowOutcome, Vec<Batch>),
        RowError,
    >)
        requires
            old(self).wf(),
        ensures
            final(self).wf(),
            exists|fresh: Seq<char>|
                (old(self)@.needs_fresh_key(option_text(existing)) ==> is_identifier(fresh))
                    && #[trigger] old(self)@.place(row@, option_text(existing), fresh) == placed(
                    result,
                    final(self)@,
                ),
            result is Err ==> final(self)@ == old(self)@,
    {
        let fresh = if self.needs_fresh_key(&existing) {
            fresh_identifier()
        } else {
            String::new()
        };
        let ghost given = fresh@;
        let ghost before = self@;
        let result = self.place_row(row, existing, fresh);
        assert(before.place(row@, option_text(existing), given) == placed(result, self@));
        result
    }

    /// Gives a row up that could not be read, and counts it.
    pub fn skip_row(&mut self)
        requires
            old(self).wf(),
        ensures
            final(self).wf(),
            final(self)@ == (TableMergeView {
                skipped: if old(self)@.skipped < u64::MAX {
                    old(self)@.skipped + 1
                } else {
                    old(self)@.skipped
                },
                ..old(self)@
            }),
    {
        if self.skipped < u64::MAX {
            self.skipped = self.skipped + 1;
        }
    }

    /// Ends the scan of the source under scan: everything that waits is to
    /// be committed before the next source is scanned.
    pub fn finish_source(&mut self) -> (batch: Batch)
        requires
            old(self).wf(),
        ensures
            final(self).wf(),
            batch@ == old(self)@.buffer.batch(),
            final(self)@ == old(self)@.after_source(),
    {
        let batch = self.buffer.flush();
        if self.position < self.sources.len() {
            self.position = self.position + 1;
        }
        batch
    }
}

/// What the merge of a row gave, and the state that it left, as `place`
/// tells them.
pub open spec fn placed(
    result: Result<(RowOutcome, Vec<Batch>), RowError>,
    state: TableMergeView,
) -> Result<(RowOutcomeView, TableMergeView, Seq<BatchView>), RowError> {
    match result {
        Ok((outcome, batches)) => Ok((outcome@, state, batch_views(batches@))),
        Err(error) => Err(error),
    }
}

/// The text of an optional string.
pub open spec fn option_text(text: Option<String>) -> Option<Seq<char>> {
    match text {
        Some(t) => Some(t@),
        None => None,
    }
}

} // verus!
