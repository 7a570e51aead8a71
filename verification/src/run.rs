//! The course of a whole merge: what is said to the destination before and
//! after it, and which table is merged when.

use crate::data::{Schema, SchemaView};
use crate::order::{lemma_all_present, positions, DependencyCycle};
use crate::plan::{
    lemma_planned_below, ColumnSourceView, MergePlan, MergePlanView, PlanError, PlanErrorView,
};
use crate::text::{first_hit, first_hit_from, lemma_first_hit};
use crate::text::{decimal_text, joined, push_decimal, push_joined, texts};
use vstd::prelude::*;

verus! {

/// The statements that make the destination fast to write to, at the price
/// of its safeguards: to be run before the first table is merged.
pub open spec fn prepare_sql() -> Seq<char> {
    "PRAGMA synchronous = OFF; PRAGMA journal_mode = OFF; PRAGMA temp_store = MEMORY; PRAGMA cache_size = -16000; PRAGMA foreign_keys = OFF;"@
}

/// The statements that put the safeguards of the destination back: to be run
/// after the last table is merged.
pub open spec fn restore_sql() -> Seq<char> {
    "PRAGMA synchronous = ON; PRAGMA journal_mode = DELETE; PRAGMA foreign_keys = ON;"@
}

/// The query whose rows are the statements that define the tables and the
/// indices of a source: run on the first source, and its rows on the
/// destination, it sets the destination up.
pub open spec fn catalog_sql() -> Seq<char> {
    "SELECT sql FROM sqlite_master;"@
}

/// The statement that gives the space of dropped tables back.
pub open spec fn vacuum_sql() -> Seq<char> {
    "VACUUM;"@
}

/// The statements to run on the destination before the first table is
/// merged.
pub fn prepare_statements() -> (sql: String)
    ensures
        sql@ == prepare_sql(),
{
    String::from_str(
        "PRAGMA synchronous = OFF; PRAGMA journal_mode = OFF; PRAGMA temp_store = MEMORY; PRAGMA cache_size = -16000; PRAGMA foreign_keys = OFF;",
    )
}

/// The statements to run on the destination after the last table is
/// merged.
pub fn restore_statements() -> (sql: String)
    ensures
        sql@ == restore_sql(),
{
    String::from_str(
        "PRAGMA synchronous = ON; PRAGMA journal_mode = DELETE; PRAGMA foreign_keys = ON;",
    )
}

/// The query for the statements that define a source.
pub fn catalog_query() -> (sql: String)
    ensures
        sql@ == catalog_sql(),
{
    String::from_str("SELECT sql FROM sqlite_master;")
}

/// The statement that gives the space of dropped tables back.
pub fn vacuum_statement() -> (sql: String)
    ensures
        sql@ == vacuum_sql(),
{
    String::from_str("VACUUM;")
}

/// What is said of a table in which `count` rows hold a foreign key that
/// names no row.
pub open spec fn integrity_warning_text(table: Seq<char>, count: nat) -> Seq<char> {
    "Table "@ + table + " has "@ + decimal_text(count) + " foreign key integrity problems"@
}

/// The warning for a table with dangling foreign keys.
pub fn integrity_warning(table: &str, count: usize) -> (text: String)
    ensures
        text@ == integrity_warning_text(table@, count as nat),
{
    let mut text = String::from_str("Table ");
    text.append(table);
    text.append(" has ");
    push_decimal(&mut text, count as u64);
    text.append(" foreign key integrity problems");
    text
}

/// What is said of a table of which `count` rows were given up.
pub open spec fn skipped_warning_text(table: Seq<char>, count: nat) -> Seq<char> {
    "Table "@ + table + ": "@ + decimal_text(count) + " rows could not be read and were skipped"@
}

/// The warning for a table of which rows were given up.
pub fn skipped_warning(table: &str, count: u64) -> (text: String)
    ensures
        text@ == skipped_warning_text(table@, count as nat),
{
    let mut text = String::from_str("Table ");
    text.append(table);
    text.append(": ");
    push_decimal(&mut text, count);
    text.append(" rows could not be read and were skipped");
    text
}

impl SchemaView {
    /// The name of table `t`, or a question mark where the schema has no
    /// such table.
    pub open spec fn name_at(self, t: int) -> Seq<char> {
        if 0 <= t < self.models.len() {
            self.models[t].name
        } else {
            "?"@
        }
    }

    /// What is said of tables that references running in a circle keep from
    /// being ordered.
    pub open spec fn cycle_text(self, tables: Seq<int>) -> Seq<char> {
        "The tables "@ + joined(Seq::new(tables.len(), |i: int| self.name_at(tables[i])), ", "@)
            + " cannot be ordered: their references run in a circle"@
    }
}

impl Schema {
    /// The sentence that names the tables of `cycle`.
    pub fn cycle_message(&self, cycle: &DependencyCycle) -> (text: String)
        ensures
            text@ == self@.cycle_text(positions(cycle.tables@)),
    {
        let ghost all = Seq::new(
            cycle.tables.len() as nat,
            |i: int| self@.name_at(positions(cycle.tables@)[i]),
        );
        let mut names: Vec<String> = Vec::new();
        let mut i: usize = 0;
        while i < cycle.tables.len()
            invariant
                i <= cycle.tables.len(),
                all == Seq::new(
                    cycle.tables.len() as nat,
                    |i: int| self@.name_at(positions(cycle.tables@)[i]),
                ),
                texts(names@) == all.take(i as int),
            decreases cycle.tables.len() - i,
        {
            let t = cycle.tables[i];
            let name = if t < self.models.len() {
                self.models[t].name.clone()
            } else {
                String::from_str("?")
            };
            let ghost before = texts(names@);
            names.push(name);
            assert(texts(names@) =~= before.push(name@));
            assert(texts(names@) =~= all.take(i as int + 1));
            i = i + 1;
        }
        assert(all.take(cycle.tables.len() as int) =~= all);
        let mut text = String::from_str("The tables ");
        push_joined(&mut text, &names, ", ");
        text.append(" cannot be ordered: their references run in a circle");
        text
    }
}

impl SchemaView {
    /// For each table, whether it has no plan.
    pub open spec fn plan_misses(self) -> Seq<bool> {
        Seq::new(self.models.len(), |t: int| self.models[t].plan(self) is Err)
    }
}

impl Schema {
    /// Makes sure that every table can be merged, before anything is
    /// written: gives the reason why the first table that has no plan has
    /// none.
    pub fn check_plans(&self) -> (result: Result<(), PlanError>)
        ensures
            match first_hit(self@.plan_misses()) {
                None => result is Ok,
                Some(t) => result matches Err(error) && self@.models[t].plan(self@) == Err::<
                    MergePlanView,
                    PlanErrorView,
                >(error@),
            },
    {
        let ghost misses = self@.plan_misses();
        let mut t: usize = 0;
        while t < self.models.len()
            invariant
                t <= self.models.len(),
                misses == self@.plan_misses(),
                first_hit(misses) == first_hit_from(misses, t as int),
            decreases self.models.len() - t,
        {
            match MergePlan::new(&self.models[t], self) {
                Ok(_) => {},
                Err(error) => {
                    return Err(error);
                },
            }
            t = t + 1;
        }
        Ok(())
    }
}

/// The course of a merge through the tables.
pub struct MergeRun {
    order: Vec<usize>,
    position: usize,
}

pub struct MergeRunView {
    /// The tables in the order of their merge.
    pub order: Seq<int>,
    /// The number of tables whose merge is complete.
    pub position: nat,
}

impl MergeRunView {
    /// The table to merge now.
    pub open spec fn current(self) -> Option<int> {
        if self.position < self.order.len() {
            Some(self.order[self.position as int])
        } else {
            None
        }
    }

    /// Whether the merge of table `t` is complete.
    pub open spec fn is_complete(self, t: int) -> bool {
        exists|j: int| 0 <= j < self.position && j < self.order.len() && self.order[j] == t
    }
}

impl View for MergeRun {
    type V = MergeRunView;

    closed spec fn view(&self) -> MergeRunView {
        MergeRunView { order: positions(self.order@), position: self.position as nat }
    }
}

impl MergeRun {
    /// The position lies within the order.
    pub closed spec fn wf(&self) -> bool {
        self.position <= self.order.len()
    }

    /// The course of the merge of `schema`, before its first table; or the
    /// tables that references running in a circle keep from being ordered.
    pub fn begin(schema: &Schema) -> (result: Result<MergeRun, DependencyCycle>)
        ensures
            match result {
                Ok(run) => {
                    &&& run.wf()
                    &&& run@.position == 0
                    &&& run@.order == schema@.merge_order()
                    &&& schema@.is_merge_order(run@.order)
                },
                Err(cycle) => positions(cycle.tables@) == schema@.circle()
                    && schema@.is_circular(positions(cycle.tables@)),
            },
            result is Ok <==> exists|order: Seq<int>| schema@.is_merge_order(order),
    {
        match schema.order() {
            Ok(order) => Ok(MergeRun { order, position: 0 }),
            Err(cycle) => Err(cycle),
        }
    }

    /// The table to merge now, if any is left.
    pub fn current_table(&self) -> (table: Option<usize>)
        requires
            self.wf(),
        ensures
            match self@.current() {
                Some(t) => table == Some(t as usize) && table->0 == t,
                None => table is None,
            },
    {
        if self.position < self.order.len() {
            Some(self.order[self.position])
        } else {
            None
        }
    }

    /// Records that the merge of the current table is complete.
    pub fn finish_table(&mut self)
        requires
            old(self).wf(),
        ensures
            final(self).wf(),
            final(self)@.order == old(self)@.order,
            final(self)@.position == if old(self)@.position < old(self)@.order.len() {
                old(self)@.position + 1
            } else {
                old(self)@.position
            },
    {
        if self.position < self.order.len() {
            self.position = self.position + 1;
        }
    }
}

/// When the merge of a table begins, the merge of every table that it
/// references is complete.
pub proof fn lemma_referenced_tables_complete(schema: SchemaView, run: MergeRunView, b: int)
    requires
        schema.is_merge_order(run.order),
        run.current() is Some,
        schema.depends(run.current()->0, b),
    ensures
        run.is_complete(b),
{
    lemma_all_present(run.order, schema.models.len() as int);
    assert(run.order.contains(b));
    let j = choose|j: int| 0 <= j < run.order.len() && run.order[j] == b;
    assert(schema.depends(run.order[run.position as int], run.order[j]));
}

/// When the merge of a table begins, the identity map stands ready for every
/// foreign key of it: a scanned column that is translated through a table
/// of the schema is translated through a table whose merge is complete.
pub proof fn lemma_translations_are_ready(
    schema: SchemaView,
    run: MergeRunView,
    plan: MergePlanView,
    k: int,
)
    requires
        schema.is_merge_order(run.order),
        run.current() is Some,
        schema.models[run.current()->0].plan(schema) == Ok::<MergePlanView, PlanErrorView>(plan),
        0 <= k < plan.columns.len(),
        plan.columns[k].source is Translate,
        schema.contains(plan.columns[k].source->table),
    ensures
        exists|b: int|
            0 <= b < schema.models.len() && run.is_complete(b) && #[trigger] schema.models[b].name
                == plan.columns[k].source->table,
{
    let a = run.current()->0;
    assert(a == run.order[run.position as int]);
    let model = schema.models[a];
    let table = plan.columns[k].source->table;
    lemma_planned_below(model, schema, model.columns.len() as int);
    let j = choose|j: int| 0 <= j < model.columns.len() && plan.columns[k] == model.planned(j);
    let name = model.columns[j].name;
    lemma_first_hit(model.relation_hits(name), 0);
    let i = model.related_column(name)->0;
    assert(model.relation_hits(name)[i]);
    assert(model.columns[i].has_relation());
    lemma_first_hit(schema.name_hits(table), 0);
    let b = schema.index_of(table)->0;
    assert(schema.name_hits(table)[b]);
    assert(schema.link(a, i) == Some(b));
    assert(schema.depends(a, b));
    lemma_referenced_tables_complete(schema, run, b);
    assert(schema.models[b].name == table);
}

} // verus!
