//! The schema model: tables, their columns, relations and uniqueness
//! constraints, and the identity-map table that belongs to each table.

use crate::text::{contains_text, first_hit, first_hit_from, lemma_first_hit, str_eq, texts};
use vstd::prelude::*;

verus! {

/// A relation from some columns of a table to the columns they reference in
/// the table that the relation column's type names.
#[derive(Debug)]
pub struct Relation {
    pub fields: Vec<String>,
    pub references: Vec<String>,
}

pub struct RelationView {
    pub fields: Seq<Seq<char>>,
    pub references: Seq<Seq<char>>,
}

impl View for Relation {
    type V = RelationView;

    open spec fn view(&self) -> RelationView {
        RelationView { fields: texts(self.fields@), references: texts(self.references@) }
    }
}

/// The type of a column: its name, and whether the column holds a list of
/// it or may be null.
#[derive(Debug)]
pub struct ColumnType {
    pub name: String,
    pub collection: bool,
    pub nullable: bool,
}

pub struct ColumnTypeView {
    pub name: Seq<char>,
    pub collection: bool,
    pub nullable: bool,
}

impl View for ColumnType {
    type V = ColumnTypeView;

    open spec fn view(&self) -> ColumnTypeView {
        ColumnTypeView { name: self.name@, collection: self.collection, nullable: self.nullable }
    }
}

/// A column of a table. A column that carries a relation stands for the
/// referenced table and not for a column of the database; the columns that
/// its relation lists as fields are the foreign keys.
#[derive(Debug)]
pub struct Column {
    pub name: String,
    pub ty: ColumnType,
    pub relation: Option<Relation>,
    pub unique: bool,
    pub primary_key: bool,
}

pub struct ColumnView {
    pub name: Seq<char>,
    pub ty: ColumnTypeView,
    pub relation: Option<RelationView>,
    pub unique: bool,
    pub primary_key: bool,
}

impl View for Column {
    type V = ColumnView;

    open spec fn view(&self) -> ColumnView {
        ColumnView {
            name: self.name@,
            ty: self.ty@,
            relation: match self.relation {
                Some(r) => Some(r@),
                None => None,
            },
            unique: self.unique,
            primary_key: self.primary_key,
        }
    }
}

impl ColumnView {
    pub open spec fn has_relation(self) -> bool {
        self.relation is Some
    }

    /// Whether this column carries a relation that lists `field` among its
    /// local fields.
    pub open spec fn relates(self, field: Seq<char>) -> bool {
        match self.relation {
            Some(r) => r.fields.contains(field),
            None => false,
        }
    }

    /// A regular column is copied as it is: it is not the primary key, holds
    /// no collection, carries no relation, and its type names no table.
    pub open spec fn is_regular(self, schema: SchemaView) -> bool {
        !self.primary_key && !self.ty.collection && !self.has_relation() && !schema.contains(
            self.ty.name,
        )
    }
}

/// How a column is named in a query that asks for its quoted form.
pub open spec fn quoted_text(model_name: Seq<char>, column_name: Seq<char>) -> Seq<char> {
    "quote(\""@ + model_name + "\".\""@ + column_name + "\")"@
}

/// The views of a list of columns.
pub open spec fn column_views(columns: Seq<Column>) -> Seq<ColumnView> {
    Seq::new(columns.len(), |i: int| columns[i]@)
}

impl Column {
    pub fn has_relation(&self) -> (yes: bool)
        ensures
            yes == self@.has_relation(),
    {
        self.relation.is_some()
    }

    /// The first column of `model` whose relation lists this column among its
    /// local fields: the relation through which this column is a foreign key.
    pub fn get_related_column<'a>(&self, model: &'a Model) -> (found: Option<&'a Column>)
        ensures
            match model@.related_column(self@.name) {
                Some(i) => found == Some(&model.columns@[i]),
                None => found is None,
            },
    {
        match model.related_column_index(self.name.as_str()) {
            Some(i) => Some(&model.columns[i]),
            None => None,
        }
    }

    /// How the column is named in a query that asks for its quoted form.
    pub fn quoted(&self, model_name: &String) -> (text: String)
        ensures
            text@ == quoted_text(model_name@, self@.name),
    {
        let mut text = String::from_str("quote(\"");
        text.append(model_name.as_str());
        text.append("\".\"");
        text.append(self.name.as_str());
        text.append("\")");
        text
    }

    /// Whether the column is copied as it is.
    pub fn is_regular(&self, schema: &Schema) -> (yes: bool)
        ensures
            yes == self@.is_regular(schema@),
    {
        !self.primary_key && !self.ty.collection && !self.has_relation() && !schema.contains(
            self.ty.name.as_str(),
        )
    }
}

/// The columns whose values, taken together, may occur once in a table.
#[derive(Debug)]
pub struct Unique {
    pub column_names: Vec<String>,
}

pub struct UniqueView {
    pub column_names: Seq<Seq<char>>,
}

impl View for Unique {
    type V = UniqueView;

    open spec fn view(&self) -> UniqueView {
        UniqueView { column_names: texts(self.column_names@) }
    }
}

/// The table that records, for one merged table, which new primary key each
/// old primary key was given.
#[derive(Debug)]
pub struct MapTable {
    pub name: String,
}

/// The name of the identity-map table of the table `model_name`.
pub open spec fn map_table_name(model_name: Seq<char>) -> Seq<char> {
    model_name + "_id_map"@
}

/// The statement that creates the identity-map table `table`.
pub open spec fn create_map_table_sql(table: Seq<char>) -> Seq<char> {
    "CREATE TABLE "@ + table + " (old_id TEXT NOT NULL, new_id TEXT NOT NULL)"@
}

/// The statements that drop the identity-map table `table` and its indices.
pub open spec fn drop_map_table_sql(table: Seq<char>) -> Seq<char> {
    "DROP INDEX IF EXISTS \""@ + table + "_old_id\"; DROP INDEX IF EXISTS \""@ + table
        + "_new_id\"; DROP INDEX IF EXISTS \""@ + table
        + "_new_id_old_id\"; DROP TABLE IF EXISTS \""@ + table + "\";"@
}

/// The statements that index the identity-map table `table` by old key, by
/// new key and by both.
pub open spec fn create_map_indices_sql(table: Seq<char>) -> Seq<char> {
    "CREATE INDEX \""@ + table + "_old_id\" ON \""@ + table
        + "\"(\"old_id\"); CREATE INDEX \""@ + table + "_new_id\" ON \""@ + table
        + "\"(\"new_id\"); CREATE INDEX \""@ + table + "_new_id_old_id\" ON \""@ + table
        + "\"(\"new_id\", \"old_id\");"@
}

impl MapTable {
    /// The identity-map table of the table `model_name`.
    pub fn new(model_name: String) -> (table: MapTable)
        ensures
            table.name@ == map_table_name(model_name@),
    {
        let mut name = model_name;
        name.append("_id_map");
        MapTable { name }
    }

    /// The statement to run on the destination before the table's merge
    /// begins.
    pub fn create_into(&self) -> (sql: String)
        ensures
            sql@ == create_map_table_sql(self.name@),
    {
        let mut sql = String::from_str("CREATE TABLE ");
        sql.append(self.name.as_str());
        sql.append(" (old_id TEXT NOT NULL, new_id TEXT NOT NULL)");
        sql
    }

    /// The statements to run on the destination when the identity map is no
    /// longer wanted.
    pub fn drop_from(&self) -> (sql: String)
        ensures
            sql@ == drop_map_table_sql(self.name@),
    {
        let table = self.name.as_str();
        let mut sql = String::from_str("DROP INDEX IF EXISTS \"");
        sql.append(table);
        sql.append("_old_id\"; DROP INDEX IF EXISTS \"");
        sql.append(table);
        sql.append("_new_id\"; DROP INDEX IF EXISTS \"");
        sql.append(table);
        sql.append("_new_id_old_id\"; DROP TABLE IF EXISTS \"");
        sql.append(table);
        sql.append("\";");
        sql
    }

    /// The statements to run on the destination once the table's rows are
    /// all written.
    pub fn create_indices(&self) -> (sql: String)
        ensures
            sql@ == create_map_indices_sql(self.name@),
    {
        let table = self.name.as_str();
        let mut sql = String::from_str("CREATE INDEX \"");
        sql.append(table);
        sql.append("_old_id\" ON \"");
        sql.append(table);
        sql.append("\"(\"old_id\"); CREATE INDEX \"");
        sql.append(table);
        sql.append("_new_id\" ON \"");
        sql.append(table);
        sql.append("\"(\"new_id\"); CREATE INDEX \"");
        sql.append(table);
        sql.append("_new_id_old_id\" ON \"");
        sql.append(table);
        sql.append("\"(\"new_id\", \"old_id\");");
        sql
    }
}

/// A table of the schema.
#[derive(Debug)]
pub struct Model {
    pub name: String,
    pub columns: Vec<Column>,
    pub unique: Option<Unique>,
    pub map_table: MapTable,
    pub primary_key_index: Option<usize>,
}

pub struct ModelView {
    pub name: Seq<char>,
    pub columns: Seq<ColumnView>,
    pub unique: Option<UniqueView>,
    pub map_table: Seq<char>,
    pub primary_key_index: Option<int>,
}

impl View for Model {
    type V = ModelView;

    open spec fn view(&self) -> ModelView {
        ModelView {
            name: self.name@,
            columns: column_views(self.columns@),
            unique: match self.unique {
                Some(u) => Some(u@),
                None => None,
            },
            map_table: self.map_table.name@,
            primary_key_index: match self.primary_key_index {
                Some(i) => Some(i as int),
                None => None,
            },
        }
    }
}

/// The position of the last column flagged as primary key.
pub open spec fn last_primary(columns: Seq<ColumnView>) -> Option<int>
    decreases columns.len(),
{
    if columns.len() == 0 {
        None
    } else if columns.last().primary_key {
        Some(columns.len() - 1)
    } else {
        last_primary(columns.drop_last())
    }
}

/// The statement that counts the rows of `table` whose foreign keys point at
/// no row.
pub open spec fn integrity_sql(table: Seq<char>) -> Seq<char> {
    "SELECT COUNT(*) FROM pragma_foreign_key_check('"@ + table + "');"@
}

impl ModelView {
    /// For each column, whether its relation lists `field`.
    pub open spec fn relation_hits(self, field: Seq<char>) -> Seq<bool> {
        Seq::new(self.columns.len(), |i: int| self.columns[i].relates(field))
    }

    /// The first column whose relation lists `field` among its local fields.
    pub open spec fn related_column(self, field: Seq<char>) -> Option<int> {
        first_hit(self.relation_hits(field))
    }

    /// For each column, whether it is named `name`.
    pub open spec fn name_hits(self, name: Seq<char>) -> Seq<bool> {
        Seq::new(self.columns.len(), |i: int| self.columns[i].name == name)
    }

    /// The first column named `name`.
    pub open spec fn column_index(self, name: Seq<char>) -> Option<int> {
        first_hit(self.name_hits(name))
    }

    /// The primary-key column, where the recorded position names one.
    pub open spec fn primary_key(self) -> Option<ColumnView> {
        match self.primary_key_index {
            Some(i) => if 0 <= i < self.columns.len() {
                Some(self.columns[i])
            } else {
                None
            },
            None => None,
        }
    }

    /// The derived parts agree with the name and the columns, as `Model::new`
    /// makes them.
    pub open spec fn wf(self) -> bool {
        &&& self.map_table == map_table_name(self.name)
        &&& self.primary_key_index == last_primary(self.columns)
    }
}

impl Model {
    /// The table named `name` with the columns `columns`: its primary key
    /// is the last column flagged as one, and its identity map is named
    /// after it.
    pub fn new(name: String, columns: Vec<Column>, unique: Option<Unique>) -> (model: Model)
        ensures
            model.name@ == name@,
            model.columns == columns,
            model.unique == unique,
            model@.wf(),
    {
        let mut primary_key_index: Option<usize> = None;
        let mut idx: usize = 0;
        while idx < columns.len()
            invariant
                idx <= columns.len(),
                match primary_key_index {
                    Some(i) => last_primary(column_views(columns@).take(idx as int)) == Some(
                        i as int,
                    ),
                    None => last_primary(column_views(columns@).take(idx as int)) is None,
                },
            decreases columns.len() - idx,
        {
            proof {
                let all = column_views(columns@);
                assert(all.take(idx as int + 1).drop_last() =~= all.take(idx as int));
                assert(all.take(idx as int + 1).last() == columns@[idx as int]@);
            }
            if columns[idx].primary_key {
                primary_key_index = Some(idx);
            }
            idx = idx + 1;
        }
        proof {
            let all = column_views(columns@);
            assert(all.take(columns.len() as int) =~= all);
        }
        let map_table = MapTable::new(name.clone());
        Model { name, columns, unique, map_table, primary_key_index }
    }

    /// The primary-key column, where the recorded position names one.
    pub fn primary_key(&self) -> (column: Option<&Column>)
        ensures
            match column {
                Some(c) => self@.primary_key() == Some(c@),
                None => self@.primary_key() is None,
            },
            self.primary_key_index matches Some(i) ==> (i < self.columns.len() ==> column == Some(
                &self.columns@[i as int],
            )),
    {
        if let Some(idx) = self.primary_key_index {
            if idx < self.columns.len() {
                return Some(&self.columns[idx]);
            }
        }
        None
    }

    /// The position of the first column whose relation lists `field` among
    /// its local fields.
    pub fn related_column_index(&self, field: &str) -> (found: Option<usize>)
        ensures
            match self@.related_column(field@) {
                Some(i) => found == Some(i as usize) && 0 <= i < self.columns.len(),
                None => found is None,
            },
    {
        let ghost hits = self@.relation_hits(field@);
        let mut i: usize = 0;
        while i < self.columns.len()
            invariant
                i <= self.columns.len(),
                hits == self@.relation_hits(field@),
                first_hit(hits) == first_hit_from(hits, i as int),
            decreases self.columns.len() - i,
        {
            let column = &self.columns[i];
            let hit = match &column.relation {
                Some(relation) => contains_text(&relation.fields, field),
                None => false,
            };
            assert(hit == hits[i as int]);
            if hit {
                return Some(i);
            }
            i = i + 1;
        }
        None
    }

    /// The position of the first column named `name`.
    pub fn column_index(&self, name: &str) -> (found: Option<usize>)
        ensures
            match self@.column_index(name@) {
                Some(i) => found == Some(i as usize) && 0 <= i < self.columns.len(),
                None => found is None,
            },
    {
        let ghost hits = self@.name_hits(name@);
        let mut i: usize = 0;
        while i < self.columns.len()
            invariant
                i <= self.columns.len(),
                hits == self@.name_hits(name@),
                first_hit(hits) == first_hit_from(hits, i as int),
            decreases self.columns.len() - i,
        {
            if str_eq(self.columns[i].name.as_str(), name) {
                return Some(i);
            }
            i = i + 1;
        }
        None
    }

    /// The first column named `name`.
    pub fn get_col(&self, name: &str) -> (column: Option<&Column>)
        ensures
            match self@.column_index(name@) {
                Some(i) => column == Some(&self.columns@[i]),
                None => column is None,
            },
    {
        match self.column_index(name) {
            Some(i) => Some(&self.columns[i]),
            None => None,
        }
    }

    /// The query whose single number is to be handed to `verify_integrity`.
    pub fn integrity_query(&self) -> (sql: String)
        ensures
            sql@ == integrity_sql(self.name@),
    {
        let mut sql = String::from_str("SELECT COUNT(*) FROM pragma_foreign_key_check('");
        sql.append(self.name.as_str());
        sql.append("');");
        sql
    }

    /// Judges the number of rows whose foreign keys point at no row: none is
    /// sound, any other number is reported as it is.
    pub fn verify_integrity(&self, dangling: usize) -> (verdict: Result<(), usize>)
        ensures
            verdict == if dangling > 0 {
                Err::<(), usize>(dangling)
            } else {
                Ok::<(), usize>(())
            },
    {
        if dangling > 0 {
            Err(dangling)
        } else {
            Ok(())
        }
    }
}

/// The tables of a database, each found by its name.
#[derive(Debug)]
pub struct Schema {
    pub models: Vec<Model>,
}

pub struct SchemaView {
    pub models: Seq<ModelView>,
}

/// The views of a list of tables.
pub open spec fn model_views(models: Seq<Model>) -> Seq<ModelView> {
    Seq::new(models.len(), |i: int| models[i]@)
}

impl View for Schema {
    type V = SchemaView;

    open spec fn view(&self) -> SchemaView {
        SchemaView { models: model_views(self.models@) }
    }
}

impl SchemaView {
    /// For each table, whether it is named `name`.
    pub open spec fn name_hits(self, name: Seq<char>) -> Seq<bool> {
        Seq::new(self.models.len(), |i: int| self.models[i].name == name)
    }

    /// The first table named `name`.
    pub open spec fn index_of(self, name: Seq<char>) -> Option<int> {
        first_hit(self.name_hits(name))
    }

    pub open spec fn contains(self, name: Seq<char>) -> bool {
        self.index_of(name) is Some
    }

    /// No two tables share a name.
    pub open spec fn wf(self) -> bool {
        forall|i: int, j: int|
            0 <= i < j < self.models.len() ==> (#[trigger] self.models[i]).name != (
            #[trigger] self.models[j]).name
    }
}

impl Schema {
    /// A schema without tables.
    pub fn new() -> (schema: Schema)
        ensures
            schema@.models.len() == 0,
            schema@.wf(),
    {
        Schema { models: Vec::new() }
    }

    /// The position of the first table named `name`.
    pub fn index_of(&self, name: &str) -> (found: Option<usize>)
        ensures
            match self@.index_of(name@) {
                Some(i) => found == Some(i as usize) && 0 <= i < self.models.len(),
                None => found is None,
            },
    {
        let ghost hits = self@.name_hits(name@);
        let mut i: usize = 0;
        while i < self.models.len()
            invariant
                i <= self.models.len(),
                hits == self@.name_hits(name@),
                first_hit(hits) == first_hit_from(hits, i as int),
            decreases self.models.len() - i,
        {
            if str_eq(self.models[i].name.as_str(), name) {
                return Some(i);
            }
            i = i + 1;
        }
        None
    }

    pub fn contains(&self, name: &str) -> (yes: bool)
        ensures
            yes == self@.contains(name@),
    {
        self.index_of(name).is_some()
    }

    /// The table named `name`.
    pub fn get(&self, name: &str) -> (model: Option<&Model>)
        ensures
            match self@.index_of(name@) {
                Some(i) => model == Some(&self.models@[i]),
                None => model is None,
            },
    {
        match self.index_of(name) {
            Some(i) => Some(&self.models[i]),
            None => None,
        }
    }

    /// Puts `model` under its name: in the place of the table that had the
    /// name, or else behind the others. Returns whether the name was new.
    pub fn insert(&mut self, model: Model) -> (fresh: bool)
        requires
            old(self)@.wf(),
        ensures
            final(self)@.wf(),
            fresh == !old(self)@.contains(model@.name),
            match old(self)@.index_of(model@.name) {
                Some(i) => final(self)@.models == old(self)@.models.update(i, model@),
                None => final(self)@.models == old(self)@.models.push(model@),
            },
    {
        proof {
            lemma_first_hit(self@.name_hits(model@.name), 0);
        }
        let ghost hits = self@.name_hits(model@.name);
        let ghost before = self@.models;
        match self.index_of(model.name.as_str()) {
            Some(i) => {
                self.models.set(i, model);
                let ghost after = self@.models;
                assert(after =~= before.update(i as int, model@));
                assert forall|a: int, b: int| 0 <= a < b < after.len() implies (
                #[trigger] after[a]).name != (#[trigger] after[b]).name by {
                    assert(hits[i as int]);
                    assert(before[a].name != before[b].name);
                    assert(before[a].name != before[i as int].name || a == i);
                    assert(before[b].name != before[i as int].name || b == i) by {
                        if b != i as int {
                            if b < i {
                                assert(before[b].name != before[i as int].name);
                            } else {
                                assert(before[i as int].name != before[b].name);
                            }
                        }
                    }
                    if a != i as int {
                        if a < i {
                            assert(before[a].name != before[i as int].name);
                        } else {
                            assert(before[i as int].name != before[a].name);
                        }
                    }
                }
                false
            },
            None => {
                self.models.push(model);
                let ghost after = self@.models;
                assert(after =~= before.push(model@));
                assert forall|a: int, b: int| 0 <= a < b < after.len() implies (
                #[trigger] after[a]).name != (#[trigger] after[b]).name by {
                    if b == before.len() {
                        assert(!hits[a]);
                    } else {
                        assert(before[a].name != before[b].name);
                    }
                }
                true
            },
        }
    }
}

} // verus!
