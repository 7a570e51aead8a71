//! The plan of one table's merge: which columns a row scan reads, which of
//! them are foreign keys to translate, and how a duplicate is looked up.

use crate::data::{quoted_text, Model, ModelView, Schema, SchemaView};
use crate::text::{decimal_text, first_hit, first_hit_from, joined, push_decimal, push_joined, str_eq, texts};
use vstd::prelude::*;

verus! {

/// Where the value of a scanned column goes in the destination.
#[derive(Debug)]
pub enum ColumnSource {
    /// The value is copied as it is.
    Copy,
    /// The value is a key of `table` in the source, to be replaced by the key
    /// that the identity map of `table` gives for it.
    Translate { table: String },
}

pub enum ColumnSourceView {
    Copy,
    Translate { table: Seq<char> },
}

impl View for ColumnSource {
    type V = ColumnSourceView;

    open spec fn view(&self) -> ColumnSourceView {
        match self {
            ColumnSource::Copy => ColumnSourceView::Copy,
            ColumnSource::Translate { table } => ColumnSourceView::Translate { table: table@ },
        }
    }
}

/// A column that the row scan reads.
#[derive(Debug)]
pub struct PlannedColumn {
    pub name: String,
    pub source: ColumnSource,
}

pub struct PlannedColumnView {
    pub name: Seq<char>,
    pub source: ColumnSourceView,
}

impl View for PlannedColumn {
    type V = PlannedColumnView;

    open spec fn view(&self) -> PlannedColumnView {
        PlannedColumnView { name: self.name@, source: self.source@ }
    }
}

/// Where a scanned row holds the value of a column of the uniqueness
/// constraint.
#[derive(Debug)]
pub enum KeyField {
    /// The quoted primary key.
    PrimaryKey,
    /// The scanned column at this position.
    Column(usize),
}

pub enum KeyFieldView {
    PrimaryKey,
    Column(int),
}

impl View for KeyField {
    type V = KeyFieldView;

    open spec fn view(&self) -> KeyFieldView {
        match self {
            KeyField::PrimaryKey => KeyFieldView::PrimaryKey,
            KeyField::Column(i) => KeyFieldView::Column(*i as int),
        }
    }
}

/// A column of the uniqueness constraint.
#[derive(Debug)]
pub struct KeyPart {
    pub column: String,
    pub field: KeyField,
    /// The table that the column is a foreign key to, if it is one.
    pub through: Option<String>,
}

pub struct KeyPartView {
    pub column: Seq<char>,
    pub field: KeyFieldView,
    pub through: Option<Seq<char>>,
}

impl View for KeyPart {
    type V = KeyPartView;

    open spec fn view(&self) -> KeyPartView {
        KeyPartView {
            column: self.column@,
            field: self.field@,
            through: match self.through {
                Some(t) => Some(t@),
                None => None,
            },
        }
    }
}

/// Why a table cannot be merged.
#[derive(Debug)]
pub enum PlanError {
    /// The table has no primary key.
    MissingPrimaryKey { table: String },
    /// The uniqueness constraint names a column that a row scan does not
    /// read.
    UnusableUniqueColumn { table: String, column: String },
}

pub enum PlanErrorView {
    MissingPrimaryKey { table: Seq<char> },
    UnusableUniqueColumn { table: Seq<char>, column: Seq<char> },
}

impl View for PlanError {
    type V = PlanErrorView;

    open spec fn view(&self) -> PlanErrorView {
        match self {
            PlanError::MissingPrimaryKey { table } => PlanErrorView::MissingPrimaryKey {
                table: table@,
            },
            PlanError::UnusableUniqueColumn { table, column } => {
                PlanErrorView::UnusableUniqueColumn { table: table@, column: column@ }
            },
        }
    }
}

impl PlanError {
    /// The error as a sentence.
    pub fn message(&self) -> (text: String)
        ensures
            text@ == self@.message(),
    {
        match self {
            PlanError::MissingPrimaryKey { table } => {
                let mut text = String::from_str("Table ");
                text.append(table.as_str());
                text.append(" has no primary key");
                text
            },
            PlanError::UnusableUniqueColumn { table, column } => {
                let mut text = String::from_str("Table ");
                text.append(table.as_str());
                text.append(" has a uniqueness constraint on ");
                text.append(column.as_str());
                text.append(", which a row scan does not read");
                text
            },
        }
    }
}

impl PlanErrorView {
    pub open spec fn message(self) -> Seq<char> {
        match self {
            PlanErrorView::MissingPrimaryKey { table } => "Table "@ + table
                + " has no primary key"@,
            PlanErrorView::UnusableUniqueColumn { table, column } => "Table "@ + table
                + " has a uniqueness constraint on "@ + column
                + ", which a row scan does not read"@,
        }
    }
}

/// The plan of one table's merge.
pub struct MergePlanView {
    pub table: Seq<char>,
    pub map_table: Seq<char>,
    pub primary_key: Seq<char>,
    pub columns: Seq<PlannedColumnView>,
    pub unique: Option<Seq<KeyPartView>>,
}

/// The views of a list of scanned columns.
pub open spec fn planned_views(columns: Seq<PlannedColumn>) -> Seq<PlannedColumnView> {
    Seq::new(columns.len(), |i: int| columns[i]@)
}

/// The views of a list of constraint columns.
pub open spec fn key_views(parts: Seq<KeyPart>) -> Seq<KeyPartView> {
    Seq::new(parts.len(), |i: int| parts[i]@)
}

/// For each scanned column, whether it is named `name`.
pub open spec fn planned_hits(columns: Seq<PlannedColumnView>, name: Seq<char>) -> Seq<bool> {
    Seq::new(columns.len(), |i: int| columns[i].name == name)
}

/// Where a scanned row holds the value of the column `name`: the primary key
/// in its quoted form, or the first scanned column of that name.
pub open spec fn key_field(
    primary_key: Seq<char>,
    columns: Seq<PlannedColumnView>,
    name: Seq<char>,
) -> Option<KeyFieldView> {
    if name == primary_key {
        Some(KeyFieldView::PrimaryKey)
    } else {
        match first_hit(planned_hits(columns, name)) {
            Some(i) => Some(KeyFieldView::Column(i)),
            None => None,
        }
    }
}

impl ModelView {
    /// The table that the column `name` is a foreign key to: the type of the
    /// first column whose relation lists `name` among its local fields.
    pub open spec fn through(self, name: Seq<char>) -> Option<Seq<char>> {
        match self.related_column(name) {
            Some(i) => Some(self.columns[i].ty.name),
            None => None,
        }
    }

    /// How a row scan reads column `k`.
    pub open spec fn planned(self, k: int) -> PlannedColumnView {
        PlannedColumnView {
            name: self.columns[k].name,
            source: match self.through(self.columns[k].name) {
                Some(table) => ColumnSourceView::Translate { table },
                None => ColumnSourceView::Copy,
            },
        }
    }

    /// The columns that a row scan reads: the regular columns below `k`, in
    /// their order.
    pub open spec fn planned_below(self, schema: SchemaView, k: int) -> Seq<PlannedColumnView>
        decreases k,
    {
        if k <= 0 {
            Seq::empty()
        } else if self.columns[k - 1].is_regular(schema) {
            self.planned_below(schema, k - 1).push(self.planned(k - 1))
        } else {
            self.planned_below(schema, k - 1)
        }
    }

    /// The constraint columns `names`, or the first of them that a row scan
    /// does not read.
    pub open spec fn key_parts(
        self,
        primary_key: Seq<char>,
        columns: Seq<PlannedColumnView>,
        names: Seq<Seq<char>>,
    ) -> Result<Seq<KeyPartView>, Seq<char>>
        decreases names.len(),
    {
        if names.len() == 0 {
            Ok(Seq::empty())
        } else {
            match self.key_parts(primary_key, columns, names.drop_last()) {
                Err(name) => Err(name),
                Ok(parts) => match key_field(primary_key, columns, names.last()) {
                    None => Err(names.last()),
                    Some(field) => Ok(
                        parts.push(
                            KeyPartView {
                                column: names.last(),
                                field,
                                through: self.through(names.last()),
                            },
                        ),
                    ),
                },
            }
        }
    }

    /// The plan of this table's merge. A table without a primary key has
    /// none, nor has one whose uniqueness constraint names a column that a
    /// row scan does not read. A constraint without columns constrains
    /// nothing.
    pub open spec fn plan(self, schema: SchemaView) -> Result<MergePlanView, PlanErrorView> {
        match self.primary_key() {
            None => Err(PlanErrorView::MissingPrimaryKey { table: self.name }),
            Some(key) => {
                let columns = self.planned_below(schema, self.columns.len() as int);
                let names = match self.unique {
                    Some(unique) => unique.column_names,
                    None => Seq::empty(),
                };
                match self.key_parts(key.name, columns, names) {
                    Err(column) => Err(
                        PlanErrorView::UnusableUniqueColumn { table: self.name, column },
                    ),
                    Ok(parts) => Ok(
                        MergePlanView {
                            table: self.name,
                            map_table: self.map_table,
                            primary_key: key.name,
                            columns,
                            unique: if parts.len() == 0 {
                                None
                            } else {
                                Some(parts)
                            },
                        },
                    ),
                }
            },
        }
    }
}

impl MergePlanView {
    /// Every constraint column is found in a scanned row.
    pub open spec fn wf(self) -> bool {
        match self.unique {
            Some(parts) => parts.len() > 0 && forall|i: int|
                0 <= i < parts.len() ==> match (#[trigger] parts[i]).field {
                    KeyFieldView::PrimaryKey => true,
                    KeyFieldView::Column(k) => 0 <= k < self.columns.len(),
                },
            None => true,
        }
    }
}

/// The plan of one table's merge.
#[derive(Debug)]
pub struct MergePlan {
    table: String,
    map_table: String,
    primary_key: String,
    columns: Vec<PlannedColumn>,
    unique: Option<Vec<KeyPart>>,
}

impl View for MergePlan {
    type V = MergePlanView;

    closed spec fn view(&self) -> MergePlanView {
        MergePlanView {
            table: self.table@,
            map_table: self.map_table@,
            primary_key: self.primary_key@,
            columns: planned_views(self.columns@),
            unique: match self.unique {
                Some(parts) => Some(key_views(parts@)),
                None => None,
            },
        }
    }
}

/// A constraint column is found where `key_field` says.
proof fn lemma_key_field(primary_key: Seq<char>, columns: Seq<PlannedColumnView>, name: Seq<char>)
    ensures
        key_field(primary_key, columns, name) matches Some(KeyFieldView::Column(k)) ==> 0 <= k
            < columns.len(),
{
    crate::text::lemma_first_hit(planned_hits(columns, name), 0);
}

/// The constraint columns that `key_parts` gives are found in a scanned row.
proof fn lemma_key_parts(
    model: ModelView,
    primary_key: Seq<char>,
    columns: Seq<PlannedColumnView>,
    names: Seq<Seq<char>>,
)
    ensures
        model.key_parts(primary_key, columns, names) matches Ok(parts) ==> parts.len()
            == names.len() && forall|i: int|
            0 <= i < parts.len() ==> match (#[trigger] parts[i]).field {
                KeyFieldView::PrimaryKey => true,
                KeyFieldView::Column(k) => 0 <= k < columns.len(),
            },
    decreases names.len(),
{
    if names.len() > 0 {
        lemma_key_parts(model, primary_key, columns, names.drop_last());
        lemma_key_field(primary_key, columns, names.last());
    }
}

impl MergePlanView {
    /// Every constraint column that is found among the scanned columns is
    /// compared as that column is stored: through the identity map of the
    /// table that the column is translated by, or as it is.
    pub open spec fn is_coherent(self) -> bool {
        match self.unique {
            Some(parts) => forall|i: int|
                0 <= i < parts.len() ==> ((#[trigger] parts[i]).field matches KeyFieldView::Column(
                    k,
                ) ==> 0 <= k < self.columns.len() && self.columns[k].name == parts[i].column
                    && self.columns[k].source == match parts[i].through {
                    Some(table) => ColumnSourceView::Translate { table },
                    None => ColumnSourceView::Copy,
                }),
            None => true,
        }
    }
}

/// Every scanned column is read as `planned` says of a column of the table.
pub proof fn lemma_planned_below(model: ModelView, schema: SchemaView, n: int)
    requires
        0 <= n <= model.columns.len(),
    ensures
        forall|k: int|
            0 <= k < model.planned_below(schema, n).len() ==> exists|j: int|
                0 <= j < n && #[trigger] model.planned_below(schema, n)[k] == model.planned(j),
    decreases n,
{
    if n > 0 {
        lemma_planned_below(model, schema, n - 1);
        let shorter = model.planned_below(schema, n - 1);
        let longer = model.planned_below(schema, n);
        assert forall|k: int| 0 <= k < longer.len() implies exists|j: int|
            0 <= j < n && #[trigger] longer[k] == model.planned(j) by {
            if k < shorter.len() {
                let j = choose|j: int| 0 <= j < n - 1 && shorter[k] == model.planned(j);
                assert(longer[k] == model.planned(j));
            } else {
                assert(longer[k] == model.planned(n - 1));
            }
        }
    }
}

/// The constraint columns that `key_parts` gives are compared as the
/// scanned columns are stored.
proof fn lemma_key_parts_coherent(
    model: ModelView,
    schema: SchemaView,
    primary_key: Seq<char>,
    names: Seq<Seq<char>>,
)
    ensures
        ({
            let columns = model.planned_below(schema, model.columns.len() as int);
            model.key_parts(primary_key, columns, names) matches Ok(parts) ==> forall|i: int|
                0 <= i < parts.len() ==> ((#[trigger] parts[i]).field matches KeyFieldView::Column(
                    k,
                ) ==> 0 <= k < columns.len() && columns[k].name == parts[i].column
                    && columns[k].source == match parts[i].through {
                    Some(table) => ColumnSourceView::Translate { table },
                    None => ColumnSourceView::Copy,
                })
        }),
    decreases names.len(),
{
    let columns = model.planned_below(schema, model.columns.len() as int);
    if names.len() > 0 {
        lemma_key_parts_coherent(model, schema, primary_key, names.drop_last());
        if let Ok(parts) = model.key_parts(primary_key, columns, names) {
            let earlier = model.key_parts(primary_key, columns, names.drop_last())->Ok_0;
            let name = names.last();
            let last = parts[parts.len() - 1];
            assert forall|i: int| 0 <= i < parts.len() implies ((#[trigger] parts[i]).field matches KeyFieldView::Column(
                k,
            ) ==> 0 <= k < columns.len() && columns[k].name == parts[i].column
                && columns[k].source == match parts[i].through {
                Some(table) => ColumnSourceView::Translate { table },
                None => ColumnSourceView::Copy,
            }) by {
                if i < parts.len() - 1 {
                    assert(parts[i] == earlier[i]);
                } else if let KeyFieldView::Column(k) = last.field {
                    crate::text::lemma_first_hit(planned_hits(columns, name), 0);
                    assert(planned_hits(columns, name)[k]);
                    lemma_planned_below(model, schema, model.columns.len() as int);
                    let j = choose|j: int|
                        0 <= j < model.columns.len() && #[trigger] columns[k] == model.planned(j);
                    assert(model.columns[j].name == name);
                }
            }
        }
    }
}

/// A plan that a table has is coherent.
pub proof fn lemma_plan_coherent(model: ModelView, schema: SchemaView)
    ensures
        model.plan(schema) matches Ok(plan) ==> plan.is_coherent(),
{
    if let Some(key) = model.primary_key() {
        let names = match model.unique {
            Some(unique) => unique.column_names,
            None => Seq::empty(),
        };
        lemma_key_parts_coherent(model, schema, key.name, names);
    }
}

/// A plan that a table has is well formed.
pub proof fn lemma_plan_wf(model: ModelView, schema: SchemaView)
    ensures
        model.plan(schema) matches Ok(plan) ==> plan.wf(),
{
    if let Some(key) = model.primary_key() {
        let columns = model.planned_below(schema, model.columns.len() as int);
        let names = match model.unique {
            Some(unique) => unique.column_names,
            None => Seq::empty(),
        };
        lemma_key_parts(model, key.name, columns, names);
    }
}

impl MergePlan {
    #[verifier::type_invariant]
    spec fn inv(self) -> bool {
        self@.wf()
    }

    /// The plan of the merge of `model`, a table of `schema`.
    pub fn new(model: &Model, schema: &Schema) -> (result: Result<MergePlan, PlanError>)
        ensures
            result matches Ok(plan) ==> plan@.wf(),
            match result {
                Ok(plan) => model@.plan(schema@) == Ok::<MergePlanView, PlanErrorView>(plan@),
                Err(error) => model@.plan(schema@) == Err::<MergePlanView, PlanErrorView>(error@),
            },
    {
        let key = match model.primary_key() {
            Some(key) => key,
            None => {
                return Err(PlanError::MissingPrimaryKey { table: model.name.clone() });
            },
        };
        let columns = planned_columns(model, schema);
        let mut parts: Vec<KeyPart> = Vec::new();
        if let Some(unique) = &model.unique {
            let names = &unique.column_names;
            let ghost all = texts(names@);
            let mut i: usize = 0;
            proof {
                assert(all.take(0) =~= Seq::<Seq<char>>::empty());
                assert(key_views(parts@) =~= Seq::<KeyPartView>::empty());
            }
            while i < names.len()
                invariant
                    i <= names.len(),
                    all == texts(names@),
                    model@.primary_key() == Some(key@),
                    model@.unique matches Some(u) && u.column_names == all,
                    planned_views(columns@) == model@.planned_below(
                        schema@,
                        model@.columns.len() as int,
                    ),
                    model@.key_parts(key@.name, planned_views(columns@), all.take(i as int))
                        == Ok::<Seq<KeyPartView>, Seq<char>>(key_views(parts@)),
                decreases names.len() - i,
            {
                let name = &names[i];
                proof {
                    assert(all.take(i as int + 1).drop_last() =~= all.take(i as int));
                    assert(all.take(i as int + 1).last() == name@);
                }
                let field = match find_key_field(&key.name, &columns, name.as_str()) {
                    Some(field) => field,
                    None => {
                        proof {
                            lemma_key_parts_fail(
                                model@,
                                key@.name,
                                planned_views(columns@),
                                all,
                                i as int + 1,
                            );
                        }
                        return Err(
                            PlanError::UnusableUniqueColumn {
                                table: model.name.clone(),
                                column: name.clone(),
                            },
                        );
                    },
                };
                let through = match model.related_column_index(name.as_str()) {
                    Some(r) => Some(model.columns[r].ty.name.clone()),
                    None => None,
                };
                let ghost before = key_views(parts@);
                let part = KeyPart { column: name.clone(), field, through };
                parts.push(part);
                assert(key_views(parts@) =~= before.push(part@));
                i = i + 1;
            }
            assert(all.take(names.len() as int) =~= all);
        }
        proof {
            lemma_plan_wf(model@, schema@);
        }
        let unique = if parts.len() == 0 {
            None
        } else {
            Some(parts)
        };
        Ok(
            MergePlan {
                table: model.name.clone(),
                map_table: model.map_table.name.clone(),
                primary_key: key.name.clone(),
                columns,
                unique,
            },
        )
    }
}

/// Once a constraint column is not found, no plan comes of the longer lists
/// either.
proof fn lemma_key_parts_fail(
    model: ModelView,
    primary_key: Seq<char>,
    columns: Seq<PlannedColumnView>,
    names: Seq<Seq<char>>,
    k: int,
)
    requires
        0 < k <= names.len(),
        model.key_parts(primary_key, columns, names.take(k)) is Err,
    ensures
        model.key_parts(primary_key, columns, names) == model.key_parts(
            primary_key,
            columns,
            names.take(k),
        ),
    decreases names.len() - k,
{
    if k < names.len() {
        assert(names.take(k + 1).drop_last() =~= names.take(k));
        lemma_key_parts_fail(model, primary_key, columns, names, k + 1);
    } else {
        assert(names.take(k) =~= names);
    }
}

/// The columns that a row scan of `model` reads.
fn planned_columns(model: &Model, schema: &Schema) -> (columns: Vec<PlannedColumn>)
    ensures
        planned_views(columns@) == model@.planned_below(schema@, model@.columns.len() as int),
{
    let mut columns: Vec<PlannedColumn> = Vec::new();
    let mut k: usize = 0;
    while k < model.columns.len()
        invariant
            k <= model.columns.len(),
            planned_views(columns@) == model@.planned_below(schema@, k as int),
        decreases model.columns.len() - k,
    {
        let column = &model.columns[k];
        if column.is_regular(schema) {
            let source = match model.related_column_index(column.name.as_str()) {
                Some(r) => ColumnSource::Translate { table: model.columns[r].ty.name.clone() },
                None => ColumnSource::Copy,
            };
            let ghost before = planned_views(columns@);
            let planned = PlannedColumn { name: column.name.clone(), source };
            columns.push(planned);
            assert(planned_views(columns@) =~= before.push(planned@));
        }
        k = k + 1;
    }
    columns
}

/// Where a scanned row holds the value of the column `name`.
fn find_key_field(primary_key: &String, columns: &Vec<PlannedColumn>, name: &str) -> (field: Option<
    KeyField,
>)
    ensures
        match key_field(primary_key@, planned_views(columns@), name@) {
            Some(f) => field matches Some(found) && found@ == f,
            None => field is None,
        },
{
    if str_eq(name, primary_key.as_str()) {
        return Some(KeyField::PrimaryKey);
    }
    let ghost hits = planned_hits(planned_views(columns@), name@);
    let mut i: usize = 0;
    while i < columns.len()
        invariant
            i <= columns.len(),
            hits == planned_hits(planned_views(columns@), name@),
            first_hit(hits) == first_hit_from(hits, i as int),
            name@ != primary_key@,
        decreases columns.len() - i,
    {
        if str_eq(columns[i].name.as_str(), name) {
            return Some(KeyField::Column(i));
        }
        i = i + 1;
    }
    None
}

/// A row as a scan of a source reads it.
#[derive(Debug)]
pub struct SourceRow {
    /// The primary key as it is.
    pub old_pk: String,
    /// The primary key as a quoted literal.
    pub quoted_pk: String,
    /// The scanned columns as quoted literals, in the order of the plan.
    pub values: Vec<String>,
}

pub struct SourceRowView {
    pub old_pk: Seq<char>,
    pub quoted_pk: Seq<char>,
    pub values: Seq<Seq<char>>,
}

impl View for SourceRow {
    type V = SourceRowView;

    open spec fn view(&self) -> SourceRowView {
        SourceRowView {
            old_pk: self.old_pk@,
            quoted_pk: self.quoted_pk@,
            values: texts(self.values@),
        }
    }
}

/// The name of the identity-map table of the table `table`, as queries write
/// it.
pub open spec fn id_map_of(table: Seq<char>) -> Seq<char> {
    table + "_id_map"@
}

/// The `n`-th placeholder of a query, counted from one.
pub open spec fn placeholder(n: nat) -> Seq<char> {
    "?"@ + decimal_text(n)
}

impl KeyPartView {
    /// The join that brings in the identity map through which the column is
    /// compared, for a foreign key.
    pub open spec fn join(self, table: Seq<char>) -> Option<Seq<char>> {
        match self.through {
            Some(target) => Some(
                "JOIN "@ + id_map_of(target) + " ON \""@ + table + "\".\""@ + self.column
                    + "\" = "@ + id_map_of(target) + ".new_id"@,
            ),
            None => None,
        }
    }

    /// The condition that compares the column with `value`: a foreign key by
    /// the old key that its identity map holds, another column by itself.
    pub open spec fn condition(self, value: Seq<char>) -> Seq<char> {
        match self.through {
            Some(target) => id_map_of(target) + ".old_id = "@ + value,
            None => self.column + " = "@ + value,
        }
    }

    /// Where `row` holds the value of the column.
    pub open spec fn value_in(self, row: SourceRowView) -> Seq<char> {
        match self.field {
            KeyFieldView::PrimaryKey => row.quoted_pk,
            KeyFieldView::Column(k) => row.values[k],
        }
    }
}

/// The joins of the constraint columns below `k`.
pub open spec fn key_joins(table: Seq<char>, parts: Seq<KeyPartView>, k: int) -> Seq<Seq<char>>
    decreases k,
{
    if k <= 0 {
        Seq::empty()
    } else {
        match parts[k - 1].join(table) {
            Some(join) => key_joins(table, parts, k - 1).push(join),
            None => key_joins(table, parts, k - 1),
        }
    }
}

impl PlannedColumnView {
    /// What an insert selects for the column: the new key from the identity
    /// map for a foreign key, the scanned value for another column.
    pub open spec fn selected(self, value: Seq<char>) -> Seq<char> {
        match self.source {
            ColumnSourceView::Translate { table } => id_map_of(table) + ".new_id"@,
            ColumnSourceView::Copy => value,
        }
    }

    /// The join that looks the scanned value up in the identity map, for a
    /// foreign key.
    pub open spec fn join(self, value: Seq<char>) -> Option<Seq<char>> {
        match self.source {
            ColumnSourceView::Translate { table } => Some(
                "LEFT JOIN "@ + id_map_of(table) + " ON "@ + id_map_of(table) + ".old_id = "@
                    + value,
            ),
            ColumnSourceView::Copy => None,
        }
    }
}

/// The joins of the scanned columns below `k`.
pub open spec fn insert_joins(
    columns: Seq<PlannedColumnView>,
    values: Seq<Seq<char>>,
    k: int,
) -> Seq<Seq<char>>
    decreases k,
{
    if k <= 0 {
        Seq::empty()
    } else {
        match columns[k - 1].join(values[k - 1]) {
            Some(join) => insert_joins(columns, values, k - 1).push(join),
            None => insert_joins(columns, values, k - 1),
        }
    }
}

impl MergePlanView {
    /// The query that counts the rows of the table in a source.
    pub open spec fn count_sql(self) -> Seq<char> {
        "SELECT COUNT("@ + self.primary_key + ") FROM \""@ + self.table + "\" WHERE 1"@
    }

    /// What the row scan selects, after the two forms of the primary key.
    pub open spec fn scan_items(self) -> Seq<Seq<char>> {
        Seq::new(
            self.columns.len(),
            |k: int|
                ", "@ + quoted_text(self.table, self.columns[k].name) + " AS "@
                    + self.columns[k].name,
        )
    }

    /// The query that scans the rows of the table in a source: the primary
    /// key as it is and quoted, then every scanned column quoted.
    pub open spec fn select_sql(self) -> Seq<char> {
        "SELECT \""@ + self.primary_key + "\" AS unquoted_pk, quote(\""@ + self.primary_key
            + "\") AS \""@ + self.primary_key + "\""@ + joined(self.scan_items(), Seq::empty())
            + " FROM \""@ + self.table + "\" WHERE 1;"@
    }

    /// The conditions of the duplicate check, one for each constraint column.
    pub open spec fn conditions(parts: Seq<KeyPartView>, values: Seq<Seq<char>>) -> Seq<
        Seq<char>,
    > {
        Seq::new(parts.len(), |i: int| parts[i].condition(values[i]))
    }

    /// The query that looks for a row of the destination table whose
    /// constraint columns hold `values`, and gives its quoted primary key.
    pub open spec fn check_sql(self, parts: Seq<KeyPartView>, values: Seq<Seq<char>>) -> Seq<
        char,
    > {
        "SELECT quote("@ + self.primary_key + ") FROM \""@ + self.table + "\" "@ + joined(
            key_joins(self.table, parts, parts.len() as int),
            " "@,
        ) + " WHERE "@ + joined(Self::conditions(parts, values), " AND "@) + " LIMIT 1;"@
    }

    /// The duplicate check with numbered placeholders for the values, for a
    /// table with a uniqueness constraint.
    pub open spec fn check_template(self) -> Option<Seq<char>> {
        match self.unique {
            Some(parts) => Some(
                self.check_sql(parts, Seq::new(parts.len(), |i: int| placeholder((i + 1) as nat))),
            ),
            None => None,
        }
    }

    /// The duplicate check for `row`, for a table with a uniqueness
    /// constraint.
    pub open spec fn check_for(self, row: SourceRowView) -> Option<Seq<char>> {
        match self.unique {
            Some(parts) => Some(
                self.check_sql(parts, Seq::new(parts.len(), |i: int| parts[i].value_in(row))),
            ),
            None => None,
        }
    }

    /// The names of the columns that an insert fills.
    pub open spec fn insert_names(self) -> Seq<Seq<char>> {
        Seq::new(
            self.columns.len() + 1,
            |k: int|
                if k == 0 {
                    self.primary_key
                } else {
                    self.columns[k - 1].name
                },
        )
    }

    /// What an insert selects for the columns that it fills.
    pub open spec fn insert_values(self, new_pk: Seq<char>, values: Seq<Seq<char>>) -> Seq<
        Seq<char>,
    > {
        Seq::new(
            self.columns.len() + 1,
            |k: int|
                if k == 0 {
                    "'"@ + new_pk + "'"@
                } else {
                    self.columns[k - 1].selected(values[k - 1])
                },
        )
    }

    /// The statement that inserts a row under the key `new_pk`: scanned
    /// values as they are, foreign keys as the identity maps translate them.
    pub open spec fn insert_sql(self, new_pk: Seq<char>, values: Seq<Seq<char>>) -> Seq<char> {
        "INSERT INTO \""@ + self.table + "\" ("@ + joined(self.insert_names(), ", "@)
            + ") SELECT "@ + joined(self.insert_values(new_pk, values), ", "@)
            + " FROM (SELECT 1) AS dummy "@ + joined(
            insert_joins(self.columns, values, self.columns.len() as int),
            " "@,
        ) + " LIMIT 1"@
    }

    /// The statement that records that the row `old_pk` of a source is the
    /// row of the destination whose quoted key is `existing_id`.
    pub open spec fn map_existing_sql(self, old_pk: Seq<char>, existing_id: Seq<char>) -> Seq<
        char,
    > {
        "INSERT INTO \""@ + self.map_table + "\" (old_id, new_id) VALUES ('"@ + old_pk + "', "@
            + existing_id + ")"@
    }

    /// The statement that records that the row `old_pk` of a source was
    /// inserted under the key `new_pk`.
    pub open spec fn map_new_sql(self, old_pk: Seq<char>, new_pk: Seq<char>) -> Seq<char> {
        "INSERT INTO \""@ + self.map_table + "\" (old_id, new_id) VALUES ('"@ + old_pk
            + "', '"@ + new_pk + "')"@
    }
}

/// Appends the name of the identity-map table of `table` to `out`.
fn push_id_map(out: &mut String, table: &str)
    ensures
        final(out)@ == old(out)@ + id_map_of(table@),
{
    let ghost before = out@;
    out.append(table);
    out.append("_id_map");
    assert(out@ =~= before + id_map_of(table@));
}

impl KeyPart {
    fn join(&self, table: &str) -> (clause: Option<String>)
        ensures
            match self@.join(table@) {
                Some(text) => clause matches Some(c) && c@ == text,
                None => clause is None,
            },
    {
        match &self.through {
            Some(target) => {
                let mut clause = String::from_str("JOIN ");
                push_id_map(&mut clause, target.as_str());
                clause.append(" ON \"");
                clause.append(table);
                clause.append("\".\"");
                clause.append(self.column.as_str());
                clause.append("\" = ");
                push_id_map(&mut clause, target.as_str());
                clause.append(".new_id");
                Some(clause)
            },
            None => None,
        }
    }

    fn condition(&self, value: &str) -> (text: String)
        ensures
            text@ == self@.condition(value@),
    {
        match &self.through {
            Some(target) => {
                let mut text = String::new();
                push_id_map(&mut text, target.as_str());
                text.append(".old_id = ");
                text.append(value);
                assert(text@ =~= self@.condition(value@));
                text
            },
            None => {
                let mut text = self.column.clone();
                text.append(" = ");
                text.append(value);
                text
            },
        }
    }
}

impl PlannedColumn {
    fn selected(&self, value: &String) -> (text: String)
        ensures
            text@ == self@.selected(value@),
    {
        match &self.source {
            ColumnSource::Translate { table } => {
                let mut text = String::new();
                push_id_map(&mut text, table.as_str());
                text.append(".new_id");
                assert(text@ =~= self@.selected(value@));
                text
            },
            ColumnSource::Copy => value.clone(),
        }
    }

    fn join(&self, value: &String) -> (clause: Option<String>)
        ensures
            match self@.join(value@) {
                Some(text) => clause matches Some(c) && c@ == text,
                None => clause is None,
            },
    {
        match &self.source {
            ColumnSource::Translate { table } => {
                let mut clause = String::from_str("LEFT JOIN ");
                push_id_map(&mut clause, table.as_str());
                clause.append(" ON ");
                push_id_map(&mut clause, table.as_str());
                clause.append(".old_id = ");
                clause.append(value.as_str());
                Some(clause)
            },
            ColumnSource::Copy => None,
        }
    }
}

impl MergePlan {
    /// Whether the table has a uniqueness constraint by which duplicates are
    /// found.
    pub fn has_unique(&self) -> (yes: bool)
        ensures
            yes == self@.unique is Some,
    {
        self.unique.is_some()
    }

    /// The number of columns that a row scan reads besides the primary key.
    pub fn width(&self) -> (n: usize)
        ensures
            n == self@.columns.len(),
    {
        self.columns.len()
    }

    /// The name of the table.
    pub fn table(&self) -> (name: &String)
        ensures
            name@ == self@.table,
    {
        &self.table
    }

    /// The query that counts the rows of the table in a source.
    pub fn count_query(&self) -> (sql: String)
        ensures
            sql@ == self@.count_sql(),
    {
        let mut sql = String::from_str("SELECT COUNT(");
        sql.append(self.primary_key.as_str());
        sql.append(") FROM \"");
        sql.append(self.table.as_str());
        sql.append("\" WHERE 1");
        sql
    }

    /// The query that scans the rows of the table in a source. Each row of
    /// its result is a `SourceRow`: the primary key, the quoted primary key,
    /// and the quoted values of the scanned columns.
    pub fn select_query(&self) -> (sql: String)
        ensures
            sql@ == self@.select_sql(),
    {
        let mut items: Vec<String> = Vec::new();
        let mut k: usize = 0;
        while k < self.columns.len()
            invariant
                k <= self.columns.len(),
                texts(items@) == self@.scan_items().take(k as int),
            decreases self.columns.len() - k,
        {
            let column = &self.columns[k];
            let mut item = String::from_str(", ");
            item.append("quote(\"");
            item.append(self.table.as_str());
            item.append("\".\"");
            item.append(column.name.as_str());
            item.append("\")");
            item.append(" AS ");
            item.append(column.name.as_str());
            proof {
                assert(item@ =~= self@.scan_items()[k as int]);
            }
            let ghost before = texts(items@);
            items.push(item);
            assert(texts(items@) =~= before.push(item@));
            assert(texts(items@) =~= self@.scan_items().take(k as int + 1));
            k = k + 1;
        }
        assert(self@.scan_items().take(self.columns.len() as int) =~= self@.scan_items());
        let mut sql = String::from_str("SELECT \"");
        sql.append(self.primary_key.as_str());
        sql.append("\" AS unquoted_pk, quote(\"");
        sql.append(self.primary_key.as_str());
        sql.append("\") AS \"");
        sql.append(self.primary_key.as_str());
        sql.append("\"");
        push_joined(&mut sql, &items, "");
        proof {
            reveal_strlit("");
            assert(""@ =~= Seq::<char>::empty());
        }
        sql.append(" FROM \"");
        sql.append(self.table.as_str());
        sql.append("\" WHERE 1;");
        sql
    }

    /// The duplicate check over `parts` with `values` for the values.
    fn check_query(&self, parts: &Vec<KeyPart>, values: &Vec<String>) -> (sql: String)
        requires
            values.len() == parts.len(),
        ensures
            sql@ == self@.check_sql(key_views(parts@), texts(values@)),
    {
        let ghost views = key_views(parts@);
        let mut joins: Vec<String> = Vec::new();
        let mut conditions: Vec<String> = Vec::new();
        let mut i: usize = 0;
        while i < parts.len()
            invariant
                i <= parts.len(),
                values.len() == parts.len(),
                views == key_views(parts@),
                texts(joins@) == key_joins(self@.table, views, i as int),
                texts(conditions@) == MergePlanView::conditions(views, texts(values@)).take(
                    i as int,
                ),
            decreases parts.len() - i,
        {
            let part = &parts[i];
            if let Some(join) = part.join(self.table.as_str()) {
                let ghost before = texts(joins@);
                joins.push(join);
                assert(texts(joins@) =~= before.push(join@));
            }
            let condition = part.condition(values[i].as_str());
            let ghost before = texts(conditions@);
            conditions.push(condition);
            assert(texts(conditions@) =~= before.push(condition@));
            assert(texts(conditions@) =~= MergePlanView::conditions(views, texts(values@)).take(
                i as int + 1,
            ));
            i = i + 1;
        }
        assert(MergePlanView::conditions(views, texts(values@)).take(parts.len() as int)
            =~= MergePlanView::conditions(views, texts(values@)));
        let mut sql = String::from_str("SELECT quote(");
        sql.append(self.primary_key.as_str());
        sql.append(") FROM \"");
        sql.append(self.table.as_str());
        sql.append("\" ");
        push_joined(&mut sql, &joins, " ");
        sql.append(" WHERE ");
        push_joined(&mut sql, &conditions, " AND ");
        sql.append(" LIMIT 1;");
        sql
    }

    /// The duplicate check with the placeholders `?1`, `?2`, ... for the
    /// values of the constraint columns, for a table with a uniqueness
    /// constraint.
    pub fn check_sql_template(&self) -> (sql: Option<String>)
        ensures
            match self@.check_template() {
                Some(text) => sql matches Some(s) && s@ == text,
                None => sql is None,
            },
    {
        match &self.unique {
            Some(parts) => {
                let mut values: Vec<String> = Vec::new();
                let mut i: usize = 0;
                while i < parts.len()
                    invariant
                        i <= parts.len(),
                        texts(values@) == Seq::new(
                            i as nat,
                            |i: int| placeholder((i + 1) as nat),
                        ),
                    decreases parts.len() - i,
                {
                    let mut value = String::from_str("?");
                    push_decimal(&mut value, (i as u64) + 1);
                    let ghost before = texts(values@);
                    values.push(value);
                    assert(texts(values@) =~= before.push(value@));
                    assert(texts(values@) =~= Seq::new(
                        (i + 1) as nat,
                        |i: int| placeholder((i + 1) as nat),
                    ));
                    i = i + 1;
                }
                assert(key_views(parts@).len() == parts.len());
                Some(self.check_query(parts, &values))
            },
            None => None,
        }
    }

    /// The duplicate check for `row`, for a table with a uniqueness
    /// constraint and a row as wide as the scan.
    pub fn check_sql(&self, row: &SourceRow) -> (sql: Option<String>)
        ensures
            match self@.check_for(row@) {
                Some(text) => if row@.values.len() == self@.columns.len() {
                    sql matches Some(s) && s@ == text
                } else {
                    sql is None
                },
                None => sql is None,
            },
    {
        proof {
            use_type_invariant(self);
        }
        if row.values.len() != self.columns.len() {
            return None;
        }
        match &self.unique {
            Some(parts) => {
                let ghost views = key_views(parts@);
                let mut values: Vec<String> = Vec::new();
                let mut i: usize = 0;
                while i < parts.len()
                    invariant
                        i <= parts.len(),
                        views == key_views(parts@),
                        row.values.len() == self.columns.len(),
                        self@.wf(),
                        self@.unique == Some(views),
                        self@.columns.len() == self.columns.len(),
                        texts(values@) == Seq::new(i as nat, |i: int| views[i].value_in(row@)),
                    decreases parts.len() - i,
                {
                    assert(parts[i as int]@ == views[i as int]);
                    let value = match &parts[i].field {
                        KeyField::PrimaryKey => row.quoted_pk.clone(),
                        KeyField::Column(k) => row.values[*k].clone(),
                    };
                    let ghost before = texts(values@);
                    values.push(value);
                    assert(texts(values@) =~= before.push(value@));
                    assert(texts(values@) =~= Seq::new(
                        (i + 1) as nat,
                        |i: int| views[i].value_in(row@),
                    ));
                    i = i + 1;
                }
                Some(self.check_query(parts, &values))
            },
            None => None,
        }
    }

    /// The statement that inserts `row` under the key `new_pk`.
    pub fn insert_sql(&self, new_pk: &str, row: &SourceRow) -> (sql: String)
        requires
            row@.values.len() == self@.columns.len(),
        ensures
            sql@ == self@.insert_sql(new_pk@, row@.values),
    {
        let ghost plan = self@;
        let ghost given = row@.values;
        let mut names: Vec<String> = Vec::new();
        let mut selected: Vec<String> = Vec::new();
        let mut joins: Vec<String> = Vec::new();
        names.push(self.primary_key.clone());
        let mut first = String::from_str("'");
        first.append(new_pk);
        first.append("'");
        selected.push(first);
        assert(texts(names@) =~= plan.insert_names().take(1));
        assert(texts(selected@) =~= plan.insert_values(new_pk@, given).take(1));
        let mut k: usize = 0;
        while k < self.columns.len()
            invariant
                k <= self.columns.len(),
                plan == self@,
                given == row@.values,
                given.len() == plan.columns.len(),
                plan.columns.len() == self.columns.len(),
                texts(names@) == plan.insert_names().take(k as int + 1),
                texts(selected@) == plan.insert_values(new_pk@, given).take(k as int + 1),
                texts(joins@) == insert_joins(plan.columns, given, k as int),
            decreases self.columns.len() - k,
        {
            let column = &self.columns[k];
            let value = &row.values[k];
            assert(column@ == plan.columns[k as int]);
            assert(value@ == given[k as int]);
            let ghost before = texts(names@);
            let name = column.name.clone();
            names.push(name);
            assert(texts(names@) =~= before.push(name@));
            assert(texts(names@) =~= plan.insert_names().take(k as int + 2));
            let ghost before = texts(selected@);
            let item = column.selected(value);
            selected.push(item);
            assert(texts(selected@) =~= before.push(item@));
            assert(texts(selected@) =~= plan.insert_values(new_pk@, given).take(k as int + 2));
            if let Some(join) = column.join(value) {
                let ghost before = texts(joins@);
                joins.push(join);
                assert(texts(joins@) =~= before.push(join@));
            }
            k = k + 1;
        }
        assert(plan.insert_names().take(self.columns.len() as int + 1) =~= plan.insert_names());
        assert(plan.insert_values(new_pk@, given).take(self.columns.len() as int + 1)
            =~= plan.insert_values(new_pk@, given));
        let mut sql = String::from_str("INSERT INTO \"");
        sql.append(self.table.as_str());
        sql.append("\" (");
        push_joined(&mut sql, &names, ", ");
        sql.append(") SELECT ");
        push_joined(&mut sql, &selected, ", ");
        sql.append(" FROM (SELECT 1) AS dummy ");
        push_joined(&mut sql, &joins, " ");
        sql.append(" LIMIT 1");
        sql
    }

    /// The statement that records that the row `old_pk` of a source is the
    /// row of the destination whose quoted key is `existing_id`.
    pub fn map_existing_sql(&self, old_pk: &str, existing_id: &str) -> (sql: String)
        ensures
            sql@ == self@.map_existing_sql(old_pk@, existing_id@),
    {
        let mut sql = String::from_str("INSERT INTO \"");
        sql.append(self.map_table.as_str());
        sql.append("\" (old_id, new_id) VALUES ('");
        sql.append(old_pk);
        sql.append("', ");
        sql.append(existing_id);
        sql.append(")");
        sql
    }

    /// The statement that records that the row `old_pk` of a source was
    /// inserted under the key `new_pk`.
    pub fn map_new_sql(&self, old_pk: &str, new_pk: &str) -> (sql: String)
        ensures
            sql@ == self@.map_new_sql(old_pk@, new_pk@),
    {
        let mut sql = String::from_str("INSERT INTO \"");
        sql.append(self.map_table.as_str());
        sql.append("\" (old_id, new_id) VALUES ('");
        sql.append(old_pk);
        sql.append("', '");
        sql.append(new_pk);
        sql.append("')");
        sql
    }
}

} // verus!
