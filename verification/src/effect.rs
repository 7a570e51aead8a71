//! What a merge does to the destination, told over values in place of
//! statements: the rows that each table comes to hold, and the identity map
//! that records under which key each row of a source is found again.
//!
//! A scanned row stands here for the values that its literals denote, and a
//! lookup for the first row of the table that holds the same values in the
//! columns of the uniqueness constraint. Every write is taken to be seen by
//! the lookups that follow it.

use crate::merge::{decide, RowOutcomeView, SourceRole};
use crate::plan::{ColumnSourceView, KeyFieldView, KeyPartView, MergePlanView, PlannedColumnView};
use crate::text::{first_hit, lemma_first_hit, lemma_first_hit_at};
use vstd::prelude::*;

verus! {

/// A row of a source: its key and the values of the scanned columns.
pub struct Candidate {
    pub old_pk: Seq<char>,
    pub values: Seq<Seq<char>>,
}

/// A row of the destination: its key and the values of the scanned columns,
/// where a foreign key that no identity map knew is null.
pub struct Stored {
    pub pk: Seq<char>,
    pub values: Seq<Option<Seq<char>>>,
}

/// A table of the destination together with its identity map.
pub struct TableImage {
    pub columns: Seq<PlannedColumnView>,
    pub rows: Seq<Stored>,
    /// The identity map: pairs of an old key and the key that stands for it
    /// in the destination, oldest first.
    pub entries: Seq<(Seq<char>, Seq<char>)>,
}

/// For each entry, whether it is for the old key `old`.
pub open spec fn entry_hits(entries: Seq<(Seq<char>, Seq<char>)>, old: Seq<char>) -> Seq<bool> {
    Seq::new(entries.len(), |i: int| entries[i].0 == old)
}

/// The key that stands for `old` in the destination: that of the first entry
/// for `old`.
pub open spec fn resolve(entries: Seq<(Seq<char>, Seq<char>)>, old: Seq<char>) -> Option<
    Seq<char>,
> {
    match first_hit(entry_hits(entries, old)) {
        Some(i) => Some(entries[i].1),
        None => None,
    }
}

/// The value that the destination stores for `value`: itself, or for a
/// foreign key the key that the identity map of the referenced table gives,
/// and null where the table has none or its map does not know the key.
pub open spec fn translate(
    dest: Map<Seq<char>, TableImage>,
    column: PlannedColumnView,
    value: Seq<char>,
) -> Option<Seq<char>> {
    match column.source {
        ColumnSourceView::Copy => Some(value),
        ColumnSourceView::Translate { table } => if dest.contains_key(table) {
            resolve(dest[table].entries, value)
        } else {
            None
        },
    }
}

/// The values that the destination stores for the row `row`.
pub open spec fn stored_values(
    dest: Map<Seq<char>, TableImage>,
    plan: MergePlanView,
    row: Candidate,
) -> Seq<Option<Seq<char>>> {
    Seq::new(plan.columns.len(), |k: int| translate(dest, plan.columns[k], row.values[k]))
}

/// The value that `row` holds in the constraint column `part`.
pub open spec fn key_value(part: KeyPartView, row: Candidate) -> Seq<char> {
    match part.field {
        KeyFieldView::PrimaryKey => row.old_pk,
        KeyFieldView::Column(k) => row.values[k],
    }
}

/// The value that the stored row `stored` holds in the constraint column
/// `part`.
pub open spec fn stored_key_value(part: KeyPartView, stored: Stored) -> Option<Seq<char>> {
    match part.field {
        KeyFieldView::PrimaryKey => Some(stored.pk),
        KeyFieldView::Column(k) => stored.values[k],
    }
}

/// Whether `stored` holds in the constraint column `part` what `row` holds
/// there: the same value, or for a foreign key a key that the identity map
/// of the referenced table gives for the value.
pub open spec fn part_matches(
    dest: Map<Seq<char>, TableImage>,
    part: KeyPartView,
    stored: Stored,
    row: Candidate,
) -> bool {
    match part.through {
        None => stored_key_value(part, stored) == Some(key_value(part, row)),
        Some(table) => dest.contains_key(table) && stored_key_value(part, stored) is Some
            && dest[table].entries.contains(
            (key_value(part, row), stored_key_value(part, stored)->0),
        ),
    }
}

/// Whether `stored` holds in every constraint column what `row` holds there.
pub open spec fn is_match(
    dest: Map<Seq<char>, TableImage>,
    parts: Seq<KeyPartView>,
    stored: Stored,
    row: Candidate,
) -> bool {
    forall|i: int| 0 <= i < parts.len() ==> part_matches(dest, #[trigger] parts[i], stored, row)
}

/// For each row of the table, whether it matches `row`.
pub open spec fn match_hits(
    dest: Map<Seq<char>, TableImage>,
    parts: Seq<KeyPartView>,
    rows: Seq<Stored>,
    row: Candidate,
) -> Seq<bool> {
    Seq::new(rows.len(), |i: int| is_match(dest, parts, rows[i], row))
}

/// What a lookup of `row` gives: the key of the first row of the table that
/// matches it.
pub open spec fn lookup(
    dest: Map<Seq<char>, TableImage>,
    plan: MergePlanView,
    row: Candidate,
) -> Option<Seq<char>> {
    match plan.unique {
        Some(parts) => match first_hit(match_hits(dest, parts, dest[plan.table].rows, row)) {
            Some(i) => Some(dest[plan.table].rows[i].pk),
            None => None,
        },
        None => None,
    }
}

/// The table after what became of `row` is carried out: a duplicate adds an
/// entry to the identity map, an inserted row adds the row and its entry.
pub open spec fn apply(
    dest: Map<Seq<char>, TableImage>,
    plan: MergePlanView,
    outcome: RowOutcomeView,
    row: Candidate,
) -> TableImage {
    let image = dest[plan.table];
    match outcome {
        RowOutcomeView::Duplicate { old_pk, existing_id } => TableImage {
            entries: image.entries.push((old_pk, existing_id)),
            ..image
        },
        RowOutcomeView::Inserted { old_pk, new_pk } => TableImage {
            rows: image.rows.push(Stored { pk: new_pk, values: stored_values(dest, plan, row) }),
            entries: image.entries.push((old_pk, new_pk)),
            ..image
        },
    }
}

/// What becomes of `row` of a source with the role `role`, where `fresh` is
/// the key that it gets if it needs a new one.
pub open spec fn outcome_of(
    dest: Map<Seq<char>, TableImage>,
    plan: MergePlanView,
    role: SourceRole,
    row: Candidate,
    fresh: Seq<char>,
) -> RowOutcomeView {
    decide(role, plan.unique is Some, row.old_pk, lookup(dest, plan, row), fresh)
}

/// The destination after the merge of `row`.
pub open spec fn merge_row(
    dest: Map<Seq<char>, TableImage>,
    plan: MergePlanView,
    role: SourceRole,
    row: Candidate,
    fresh: Seq<char>,
) -> Map<Seq<char>, TableImage> {
    dest.insert(plan.table, apply(dest, plan, outcome_of(dest, plan, role, row, fresh), row))
}

/// The destination after the merge of the rows of one source, where
/// `fresh[i]` is the new key for row `i` if it needs one.
pub open spec fn merge_source(
    dest: Map<Seq<char>, TableImage>,
    plan: MergePlanView,
    role: SourceRole,
    rows: Seq<Candidate>,
    fresh: Seq<Seq<char>>,
) -> Map<Seq<char>, TableImage>
    decreases rows.len(),
{
    if rows.len() == 0 {
        dest
    } else {
        merge_row(
            merge_source(dest, plan, role, rows.drop_last(), fresh),
            plan,
            role,
            rows.last(),
            fresh[rows.len() - 1],
        )
    }
}

/// The role of the source at `position` of the scan order.
pub open spec fn role_at(position: int) -> SourceRole {
    if position == 0 {
        SourceRole::Primary
    } else {
        SourceRole::Secondary
    }
}

/// The destination after the merge of the rows of the sources, which stand
/// in the order of their scan.
pub open spec fn merge_sources(
    dest: Map<Seq<char>, TableImage>,
    plan: MergePlanView,
    sources: Seq<Seq<Candidate>>,
    fresh: Seq<Seq<Seq<char>>>,
) -> Map<Seq<char>, TableImage>
    decreases sources.len(),
{
    if sources.len() == 0 {
        dest
    } else {
        merge_source(
            merge_sources(dest, plan, sources.drop_last(), fresh),
            plan,
            role_at(sources.len() - 1),
            sources.last(),
            fresh[sources.len() - 1],
        )
    }
}

/// The destination with the table of `plan` and its identity map set up,
/// both empty.
pub open spec fn begin_table(dest: Map<Seq<char>, TableImage>, plan: MergePlanView) -> Map<
    Seq<char>,
    TableImage,
> {
    dest.insert(
        plan.table,
        TableImage { columns: plan.columns, rows: Seq::empty(), entries: Seq::empty() },
    )
}

/// The destination after the merge of one table.
pub open spec fn merge_table(
    dest: Map<Seq<char>, TableImage>,
    plan: MergePlanView,
    sources: Seq<Seq<Candidate>>,
    fresh: Seq<Seq<Seq<char>>>,
) -> Map<Seq<char>, TableImage> {
    merge_sources(begin_table(dest, plan), plan, sources, fresh)
}

/// The destination after the merge of the tables of `plans`, which stand in
/// the order of their merge: `data[t]` holds the rows of table `t`, source by
/// source in the order of the scan.
pub open spec fn merge_tables(
    plans: Seq<MergePlanView>,
    data: Seq<Seq<Seq<Candidate>>>,
    fresh: Seq<Seq<Seq<Seq<char>>>>,
) -> Map<Seq<char>, TableImage>
    decreases plans.len(),
{
    if plans.len() == 0 {
        Map::empty()
    } else {
        merge_table(
            merge_tables(plans.drop_last(), data, fresh),
            plans.last(),
            data[plans.len() - 1],
            fresh[plans.len() - 1],
        )
    }
}

/// The number of rows in `sources`.
pub open spec fn row_count(sources: Seq<Seq<Candidate>>) -> nat
    decreases sources.len(),
{
    if sources.len() == 0 {
        0
    } else {
        row_count(sources.drop_last()) + sources.last().len()
    }
}

/// What one row of an unchecked source does to its table: it adds the row,
/// under the key that `decide` gives it, and the entry of that key.
proof fn lemma_unchecked_row(
    dest: Map<Seq<char>, TableImage>,
    plan: MergePlanView,
    role: SourceRole,
    row: Candidate,
    fresh: Seq<char>,
)
    requires
        role == SourceRole::Primary || plan.unique is None,
    ensures
        ({
            let before = dest[plan.table];
            let after = merge_row(dest, plan, role, row, fresh)[plan.table];
            let key = if role == SourceRole::Primary {
                row.old_pk
            } else {
                fresh
            };
            &&& after.rows == before.rows.push(
                Stored { pk: key, values: stored_values(dest, plan, row) },
            )
            &&& after.entries == before.entries.push((row.old_pk, key))
        }),
{
}

/// Every row that is copied from the primary source is found in the
/// destination under the key that it has in the source: the table grows by
/// one row for each row of the source, in the order of the scan, and each of
/// them keeps its key.
pub proof fn lemma_primary_keeps_keys(
    dest: Map<Seq<char>, TableImage>,
    plan: MergePlanView,
    rows: Seq<Candidate>,
    fresh: Seq<Seq<char>>,
)
    ensures
        ({
            let before = dest[plan.table].rows;
            let after = merge_source(dest, plan, SourceRole::Primary, rows, fresh)[plan.table].rows;
            &&& after.len() == before.len() + rows.len()
            &&& forall|j: int| 0 <= j < before.len() ==> after[j] == before[j]
            &&& forall|i: int| 0 <= i < rows.len() ==> (#[trigger] after[before.len() + i]).pk == rows[i].old_pk
        }),
    decreases rows.len(),
{
    if rows.len() > 0 {
        let earlier = merge_source(dest, plan, SourceRole::Primary, rows.drop_last(), fresh);
        lemma_primary_keeps_keys(dest, plan, rows.drop_last(), fresh);
        lemma_unchecked_row(earlier, plan, SourceRole::Primary, rows.last(), fresh[rows.len() - 1]);
        let before = dest[plan.table].rows;
        let middle = earlier[plan.table].rows;
        let after = merge_source(dest, plan, SourceRole::Primary, rows, fresh)[plan.table].rows;
        assert forall|i: int| 0 <= i < rows.len() implies (#[trigger] after[before.len() + i]).pk
            == rows[i].old_pk by {
            if i < rows.len() - 1 {
                assert(after[before.len() + i] == middle[before.len() + i]);
                assert(rows.drop_last()[i] == rows[i]);
            }
        }
    }
}

/// A source adds one row for each of its rows to a table without a
/// uniqueness constraint.
proof fn lemma_unconstrained_source(
    dest: Map<Seq<char>, TableImage>,
    plan: MergePlanView,
    role: SourceRole,
    rows: Seq<Candidate>,
    fresh: Seq<Seq<char>>,
)
    requires
        plan.unique is None,
    ensures
        merge_source(dest, plan, role, rows, fresh)[plan.table].rows.len()
            == dest[plan.table].rows.len() + rows.len(),
    decreases rows.len(),
{
    if rows.len() > 0 {
        let earlier = merge_source(dest, plan, role, rows.drop_last(), fresh);
        lemma_unconstrained_source(dest, plan, role, rows.drop_last(), fresh);
        lemma_unchecked_row(earlier, plan, role, rows.last(), fresh[rows.len() - 1]);
    }
}

proof fn lemma_unconstrained_sources(
    dest: Map<Seq<char>, TableImage>,
    plan: MergePlanView,
    sources: Seq<Seq<Candidate>>,
    fresh: Seq<Seq<Seq<char>>>,
)
    requires
        plan.unique is None,
    ensures
        merge_sources(dest, plan, sources, fresh)[plan.table].rows.len()
            == dest[plan.table].rows.len() + row_count(sources),
    decreases sources.len(),
{
    if sources.len() > 0 {
        lemma_unconstrained_sources(dest, plan, sources.drop_last(), fresh);
        lemma_unconstrained_source(
            merge_sources(dest, plan, sources.drop_last(), fresh),
            plan,
            role_at(sources.len() - 1),
            sources.last(),
            fresh[sources.len() - 1],
        );
    }
}

/// A table without a uniqueness constraint holds, once it is merged, as many
/// rows as its sources hold together.
pub proof fn lemma_unconstrained_row_count(
    dest: Map<Seq<char>, TableImage>,
    plan: MergePlanView,
    sources: Seq<Seq<Candidate>>,
    fresh: Seq<Seq<Seq<char>>>,
)
    requires
        plan.unique is None,
    ensures
        merge_table(dest, plan, sources, fresh)[plan.table].rows.len() == row_count(sources),
{
    lemma_unconstrained_sources(begin_table(dest, plan), plan, sources, fresh);
}

/// Whether a row of `rows` has the key `pk`.
pub open spec fn has_key(rows: Seq<Stored>, pk: Seq<char>) -> bool {
    exists|j: int| 0 <= j < rows.len() && (#[trigger] rows[j]).pk == pk
}

/// Every entry of the identity map gives the key of a row of the table.
pub open spec fn entries_sound(image: TableImage) -> bool {
    forall|i: int|
        0 <= i < image.entries.len() ==> has_key(image.rows, (#[trigger] image.entries[i]).1)
}

/// Whether the value `value` of the column `column` names a row: any value
/// does that is not a foreign key, and so does null; a foreign key names the
/// row of the referenced table that has it for its key.
pub open spec fn names_a_row(
    dest: Map<Seq<char>, TableImage>,
    column: PlannedColumnView,
    value: Option<Seq<char>>,
) -> bool {
    match (column.source, value) {
        (ColumnSourceView::Translate { table }, Some(key)) => dest.contains_key(table) && has_key(
            dest[table].rows,
            key,
        ),
        _ => true,
    }
}

/// No row of the table holds a foreign key that names no row.
pub open spec fn references_sound(dest: Map<Seq<char>, TableImage>, image: TableImage) -> bool {
    forall|r: int, k: int|
        0 <= r < image.rows.len() && 0 <= k < image.columns.len() && k < image.rows[r].values.len()
            ==> names_a_row(dest, image.columns[k], #[trigger] image.rows[r].values[k])
}

/// No table of the destination holds a foreign key that names no row, and
/// no identity map gives a key that no row has: a count of the dangling
/// foreign keys finds none in any table.
pub open spec fn is_sound(dest: Map<Seq<char>, TableImage>) -> bool {
    forall|name: Seq<char>| #[trigger]
        dest.contains_key(name) ==> entries_sound(dest[name]) && references_sound(
            dest,
            dest[name],
        )
}

/// `after` holds the tables of `before`, each with the rows that it had and
/// maybe more.
pub open spec fn extends(
    before: Map<Seq<char>, TableImage>,
    after: Map<Seq<char>, TableImage>,
) -> bool {
    forall|name: Seq<char>| #[trigger]
        before.contains_key(name) ==> after.contains_key(name) && after[name].columns
            == before[name].columns && before[name].rows.len() <= after[name].rows.len()
            && forall|j: int|
            0 <= j < before[name].rows.len() ==> #[trigger] after[name].rows[j]
                == before[name].rows[j]
}

/// A key that a table has is kept when the table grows.
proof fn lemma_key_kept(
    before: Map<Seq<char>, TableImage>,
    after: Map<Seq<char>, TableImage>,
    column: PlannedColumnView,
    value: Option<Seq<char>>,
)
    requires
        extends(before, after),
        names_a_row(before, column, value),
    ensures
        names_a_row(after, column, value),
{
    if let (ColumnSourceView::Translate { table }, Some(key)) = (column.source, value) {
        assert(before.contains_key(table));
        let j = choose|j: int|
            0 <= j < before[table].rows.len() && (#[trigger] before[table].rows[j]).pk == key;
        assert(after[table].rows[j] == before[table].rows[j]);
    }
}

/// What the identity map gives for a key is the key of one of its entries.
proof fn lemma_resolve(entries: Seq<(Seq<char>, Seq<char>)>, old: Seq<char>)
    ensures
        match resolve(entries, old) {
            Some(new) => exists|i: int|
                0 <= i < entries.len() && #[trigger] entries[i] == (old, new) && forall|j: int|
                    0 <= j < i ==> (#[trigger] entries[j]).0 != old,
            None => forall|j: int| 0 <= j < entries.len() ==> (#[trigger] entries[j]).0 != old,
        },
{
    let hits = entry_hits(entries, old);
    lemma_first_hit(hits, 0);
    match first_hit(hits) {
        Some(i) => {
            assert(entries[i] == (old, entries[i].1));
            assert forall|j: int| 0 <= j < i implies (#[trigger] entries[j]).0 != old by {
                assert(!hits[j]);
            }
        },
        None => {
            assert forall|j: int| 0 <= j < entries.len() implies (#[trigger] entries[j]).0
                != old by {
                assert(!hits[j]);
            }
        },
    }
}

/// What a lookup gives is the key of a row of the table.
proof fn lemma_lookup(dest: Map<Seq<char>, TableImage>, plan: MergePlanView, row: Candidate)
    ensures
        lookup(dest, plan, row) matches Some(key) ==> has_key(dest[plan.table].rows, key),
{
    if let Some(parts) = plan.unique {
        let rows = dest[plan.table].rows;
        lemma_first_hit(match_hits(dest, parts, rows, row), 0);
        if let Some(i) = first_hit(match_hits(dest, parts, rows, row)) {
            assert(rows[i].pk == lookup(dest, plan, row)->0);
        }
    }
}

/// The merge of a row leaves a sound destination sound, and takes nothing
/// from it.
pub proof fn lemma_row_keeps_sound(
    dest: Map<Seq<char>, TableImage>,
    plan: MergePlanView,
    role: SourceRole,
    row: Candidate,
    fresh: Seq<char>,
)
    requires
        is_sound(dest),
        dest.contains_key(plan.table),
        dest[plan.table].columns == plan.columns,
    ensures
        is_sound(merge_row(dest, plan, role, row, fresh)),
        extends(dest, merge_row(dest, plan, role, row, fresh)),
        merge_row(dest, plan, role, row, fresh).dom() == dest.dom(),
{
    let after = merge_row(dest, plan, role, row, fresh);
    let outcome = outcome_of(dest, plan, role, row, fresh);
    let was = dest[plan.table];
    let now = after[plan.table];
    assert(after.dom() =~= dest.dom());
    assert(extends(dest, after));
    lemma_lookup(dest, plan, row);
    assert(entries_sound(now)) by {
        assert forall|i: int| 0 <= i < now.entries.len() implies has_key(
            now.rows,
            (#[trigger] now.entries[i]).1,
        ) by {
            if i < was.entries.len() {
                assert(now.entries[i] == was.entries[i]);
                let j = choose|j: int|
                    0 <= j < was.rows.len() && (#[trigger] was.rows[j]).pk == was.entries[i].1;
                assert(now.rows[j] == was.rows[j]);
            } else {
                match outcome {
                    RowOutcomeView::Duplicate { old_pk, existing_id } => {
                        let j = choose|j: int|
                            0 <= j < was.rows.len() && (#[trigger] was.rows[j]).pk == existing_id;
                        assert(now.rows[j] == was.rows[j]);
                    },
                    RowOutcomeView::Inserted { old_pk, new_pk } => {
                        assert(now.rows[was.rows.len() as int].pk == new_pk);
                    },
                }
            }
        }
    }
    assert forall|name: Seq<char>| #[trigger] after.contains_key(name) implies entries_sound(
        after[name],
    ) && references_sound(after, after[name]) by {
        let image = after[name];
        assert(dest.contains_key(name));
        assert forall|r: int, k: int|
            0 <= r < image.rows.len() && 0 <= k < image.columns.len() && k
                < image.rows[r].values.len() implies names_a_row(
            after,
            image.columns[k],
            #[trigger] image.rows[r].values[k],
        ) by {
            if r < dest[name].rows.len() {
                assert(image.rows[r] == dest[name].rows[r]);
                assert(names_a_row(dest, dest[name].columns[k], dest[name].rows[r].values[k]));
                lemma_key_kept(dest, after, image.columns[k], image.rows[r].values[k]);
            } else {
                assert(name == plan.table);
                let column = plan.columns[k];
                let value = translate(dest, column, row.values[k]);
                assert(image.rows[r].values[k] == value);
                if let (ColumnSourceView::Translate { table }, Some(key)) = (column.source, value) {
                    lemma_resolve(dest[table].entries, row.values[k]);
                    let i = choose|i: int|
                        0 <= i < dest[table].entries.len() && #[trigger] dest[table].entries[i] == (
                            row.values[k],
                            key,
                        );
                    assert(has_key(dest[table].rows, dest[table].entries[i].1));
                    assert(names_a_row(dest, column, value));
                }
                lemma_key_kept(dest, after, column, value);
            }
        }
        if name != plan.table {
            assert(after[name] == dest[name]);
        }
    }
}

/// The merge of the rows of a source leaves a sound destination sound.
pub proof fn lemma_source_keeps_sound(
    dest: Map<Seq<char>, TableImage>,
    plan: MergePlanView,
    role: SourceRole,
    rows: Seq<Candidate>,
    fresh: Seq<Seq<char>>,
)
    requires
        is_sound(dest),
        dest.contains_key(plan.table),
        dest[plan.table].columns == plan.columns,
    ensures
        is_sound(merge_source(dest, plan, role, rows, fresh)),
        merge_source(dest, plan, role, rows, fresh).dom() == dest.dom(),
        merge_source(dest, plan, role, rows, fresh)[plan.table].columns == plan.columns,
    decreases rows.len(),
{
    if rows.len() > 0 {
        lemma_source_keeps_sound(dest, plan, role, rows.drop_last(), fresh);
        let earlier = merge_source(dest, plan, role, rows.drop_last(), fresh);
        assert(earlier.contains_key(plan.table));
        lemma_row_keeps_sound(earlier, plan, role, rows.last(), fresh[rows.len() - 1]);
    }
}

/// The merge of the rows of all the sources of a table leaves a sound
/// destination sound.
pub proof fn lemma_sources_keep_sound(
    dest: Map<Seq<char>, TableImage>,
    plan: MergePlanView,
    sources: Seq<Seq<Candidate>>,
    fresh: Seq<Seq<Seq<char>>>,
)
    requires
        is_sound(dest),
        dest.contains_key(plan.table),
        dest[plan.table].columns == plan.columns,
    ensures
        is_sound(merge_sources(dest, plan, sources, fresh)),
        merge_sources(dest, plan, sources, fresh).dom() == dest.dom(),
        merge_sources(dest, plan, sources, fresh)[plan.table].columns == plan.columns,
    decreases sources.len(),
{
    if sources.len() > 0 {
        lemma_sources_keep_sound(dest, plan, sources.drop_last(), fresh);
        let earlier = merge_sources(dest, plan, sources.drop_last(), fresh);
        assert(earlier.contains_key(plan.table));
        lemma_source_keeps_sound(
            earlier,
            plan,
            role_at(sources.len() - 1),
            sources.last(),
            fresh[sources.len() - 1],
        );
    }
}

/// The tables that `merge_tables` has set up are those of the plans.
proof fn lemma_merged_names(
    plans: Seq<MergePlanView>,
    data: Seq<Seq<Seq<Candidate>>>,
    fresh: Seq<Seq<Seq<Seq<char>>>>,
)
    ensures
        forall|name: Seq<char>|
            merge_tables(plans, data, fresh).contains_key(name) <==> exists|i: int|
                0 <= i < plans.len() && (#[trigger] plans[i]).table == name,
    decreases plans.len(),
{
    if plans.len() > 0 {
        let earlier = merge_tables(plans.drop_last(), data, fresh);
        let plan = plans.last();
        lemma_merged_names(plans.drop_last(), data, fresh);
        lemma_begin_keeps_sound_domain(earlier, plan);
        lemma_sources_domain(
            begin_table(earlier, plan),
            plan,
            data[plans.len() - 1],
            fresh[plans.len() - 1],
        );
        let after = merge_tables(plans, data, fresh);
        assert forall|name: Seq<char>| after.contains_key(name) <==> exists|i: int|
            0 <= i < plans.len() && (#[trigger] plans[i]).table == name by {
            if after.contains_key(name) {
                if name == plan.table {
                    assert(plans[plans.len() - 1].table == name);
                } else {
                    assert(earlier.contains_key(name));
                    let i = choose|i: int|
                        0 <= i < plans.drop_last().len() && (#[trigger] plans.drop_last()[i]).table
                            == name;
                    assert(plans[i].table == name);
                }
            }
            if exists|i: int| 0 <= i < plans.len() && (#[trigger] plans[i]).table == name {
                let i = choose|i: int| 0 <= i < plans.len() && (#[trigger] plans[i]).table == name;
                if i < plans.len() - 1 {
                    assert(plans.drop_last()[i].table == name);
                }
            }
        }
    }
}

/// Setting a table up adds its name to those of the destination.
proof fn lemma_begin_keeps_sound_domain(dest: Map<Seq<char>, TableImage>, plan: MergePlanView)
    ensures
        begin_table(dest, plan).dom() == dest.dom().insert(plan.table),
{
    assert(begin_table(dest, plan).dom() =~= dest.dom().insert(plan.table));
}

/// The merge of rows sets no table up and takes none away.
proof fn lemma_sources_domain(
    dest: Map<Seq<char>, TableImage>,
    plan: MergePlanView,
    sources: Seq<Seq<Candidate>>,
    fresh: Seq<Seq<Seq<char>>>,
)
    requires
        dest.contains_key(plan.table),
    ensures
        merge_sources(dest, plan, sources, fresh).dom() == dest.dom(),
    decreases sources.len(),
{
    if sources.len() > 0 {
        lemma_sources_domain(dest, plan, sources.drop_last(), fresh);
        lemma_source_domain(
            merge_sources(dest, plan, sources.drop_last(), fresh),
            plan,
            role_at(sources.len() - 1),
            sources.last(),
            fresh[sources.len() - 1],
        );
    }
}

proof fn lemma_source_domain(
    dest: Map<Seq<char>, TableImage>,
    plan: MergePlanView,
    role: SourceRole,
    rows: Seq<Candidate>,
    fresh: Seq<Seq<char>>,
)
    requires
        dest.contains_key(plan.table),
    ensures
        merge_source(dest, plan, role, rows, fresh).dom() == dest.dom(),
    decreases rows.len(),
{
    if rows.len() > 0 {
        lemma_source_domain(dest, plan, role, rows.drop_last(), fresh);
        let earlier = merge_source(dest, plan, role, rows.drop_last(), fresh);
        assert(merge_row(earlier, plan, role, rows.last(), fresh[rows.len() - 1]).dom()
            =~= earlier.dom());
    }
}

/// Setting up a table that the destination does not hold yet leaves a sound
/// destination sound.
proof fn lemma_begin_keeps_sound(dest: Map<Seq<char>, TableImage>, plan: MergePlanView)
    requires
        is_sound(dest),
        !dest.contains_key(plan.table),
    ensures
        is_sound(begin_table(dest, plan)),
{
    let after = begin_table(dest, plan);
    assert(extends(dest, after));
    assert forall|name: Seq<char>| #[trigger] after.contains_key(name) implies entries_sound(
        after[name],
    ) && references_sound(after, after[name]) by {
        if name != plan.table {
            let image = dest[name];
            assert(after[name] == image);
            assert forall|r: int, k: int|
                0 <= r < image.rows.len() && 0 <= k < image.columns.len() && k
                    < image.rows[r].values.len() implies names_a_row(
                after,
                image.columns[k],
                #[trigger] image.rows[r].values[k],
            ) by {
                assert(names_a_row(dest, image.columns[k], image.rows[r].values[k]));
                lemma_key_kept(dest, after, image.columns[k], image.rows[r].values[k]);
            }
        }
    }
}

/// After the merge of tables of different names, in whatever order and from
/// whatever rows, no table of the destination holds a foreign key that names
/// no row: a count of the dangling foreign keys finds none in any table.
pub proof fn lemma_merge_is_sound(
    plans: Seq<MergePlanView>,
    data: Seq<Seq<Seq<Candidate>>>,
    fresh: Seq<Seq<Seq<Seq<char>>>>,
)
    requires
        forall|i: int, j: int|
            0 <= i < j < plans.len() ==> (#[trigger] plans[i]).table != (#[trigger] plans[j]).table,
    ensures
        is_sound(merge_tables(plans, data, fresh)),
    decreases plans.len(),
{
    if plans.len() > 0 {
        let earlier = merge_tables(plans.drop_last(), data, fresh);
        let plan = plans.last();
        assert forall|i: int, j: int| 0 <= i < j < plans.drop_last().len() implies (
        #[trigger] plans.drop_last()[i]).table != (#[trigger] plans.drop_last()[j]).table by {
            assert(plans[i].table != plans[j].table);
        }
        lemma_merge_is_sound(plans.drop_last(), data, fresh);
        lemma_merged_names(plans.drop_last(), data, fresh);
        assert(!earlier.contains_key(plan.table)) by {
            if earlier.contains_key(plan.table) {
                let i = choose|i: int|
                    0 <= i < plans.drop_last().len() && (#[trigger] plans.drop_last()[i]).table
                        == plan.table;
                assert(plans[i].table != plans[plans.len() - 1].table);
            }
        }
        lemma_begin_keeps_sound(earlier, plan);
        lemma_sources_keep_sound(
            begin_table(earlier, plan),
            plan,
            data[plans.len() - 1],
            fresh[plans.len() - 1],
        );
    }
}

/// The two rows hold the same values in the columns of the constraint.
pub open spec fn same_key(parts: Seq<KeyPartView>, a: Candidate, b: Candidate) -> bool {
    forall|i: int|
        0 <= i < parts.len() ==> key_value(#[trigger] parts[i], a) == key_value(parts[i], b)
}

/// The constraint of the plan is over scanned columns alone, each compared
/// as the plan stores it, and none of them a foreign key to the table
/// itself.
pub open spec fn is_plain_key(plan: MergePlanView, parts: Seq<KeyPartView>) -> bool {
    &&& plan.unique == Some(parts)
    &&& plan.is_coherent()
    &&& forall|i: int|
        0 <= i < parts.len() ==> (#[trigger] parts[i]).field is Column && parts[i].through != Some(
            plan.table,
        )
}

/// The identity maps know every foreign key that `row` holds in the columns
/// of the constraint.
pub open spec fn key_resolves(
    dest: Map<Seq<char>, TableImage>,
    plan: MergePlanView,
    parts: Seq<KeyPartView>,
    row: Candidate,
) -> bool {
    forall|i: int|
        0 <= i < parts.len() ==> ((#[trigger] parts[i]).field matches KeyFieldView::Column(k)
            ==> translate(dest, plan.columns[k], row.values[k]) is Some)
}

/// The row that the merge of `first` has stored matches `second`.
proof fn lemma_stored_matches(
    dest: Map<Seq<char>, TableImage>,
    after: Map<Seq<char>, TableImage>,
    plan: MergePlanView,
    parts: Seq<KeyPartView>,
    first: Candidate,
    second: Candidate,
    key: Seq<char>,
)
    requires
        is_plain_key(plan, parts),
        same_key(parts, first, second),
        key_resolves(dest, plan, parts, first),
        forall|name: Seq<char>|
            name != plan.table ==> after.contains_key(name) == dest.contains_key(name)
                && #[trigger] after[name] == dest[name],
    ensures
        is_match(
            after,
            parts,
            Stored { pk: key, values: stored_values(dest, plan, first) },
            second,
        ),
{
    let stored = Stored { pk: key, values: stored_values(dest, plan, first) };
    assert forall|i: int| 0 <= i < parts.len() implies part_matches(
        after,
        #[trigger] parts[i],
        stored,
        second,
    ) by {
        let part = parts[i];
        assert(key_value(part, first) == key_value(part, second));
        assert(part.field is Column);
        let k = part.field->Column_0;
        let value = translate(dest, plan.columns[k], first.values[k]);
        assert(stored.values[k] == value);
        if let Some(table) = part.through {
            assert(after[table] == dest[table]);
            lemma_resolve(dest[table].entries, first.values[k]);
        }
    }
}

/// A row that matches `second` after the merge of `first`, and was there
/// before it, matched `first` then.
proof fn lemma_match_is_old(
    dest: Map<Seq<char>, TableImage>,
    after: Map<Seq<char>, TableImage>,
    plan: MergePlanView,
    parts: Seq<KeyPartView>,
    stored: Stored,
    first: Candidate,
    second: Candidate,
)
    requires
        is_plain_key(plan, parts),
        same_key(parts, first, second),
        forall|name: Seq<char>|
            name != plan.table ==> after.contains_key(name) == dest.contains_key(name)
                && #[trigger] after[name] == dest[name],
        is_match(after, parts, stored, second),
    ensures
        is_match(dest, parts, stored, first),
{
    assert forall|i: int| 0 <= i < parts.len() implies part_matches(
        dest,
        #[trigger] parts[i],
        stored,
        first,
    ) by {
        let part = parts[i];
        assert(part_matches(after, part, stored, second));
        assert(key_value(part, first) == key_value(part, second));
        if let Some(table) = part.through {
            assert(after[table] == dest[table]);
        }
    }
}

/// Two rows of the sources that hold the same values in the columns of the
/// uniqueness constraint become one row of the destination, and the identity
/// map gives the key of that row for the keys of both.
///
/// The first row is one that the destination does not hold yet, so that it
/// is inserted whatever its source; the second comes from a secondary source
/// after it. The constraint is over scanned columns, the foreign keys among
/// them are known to the identity maps of the tables that they reference,
/// and the identity map of the table has no entry yet for the key of either
/// row.
pub proof fn lemma_duplicate_collapses(
    dest: Map<Seq<char>, TableImage>,
    plan: MergePlanView,
    role: SourceRole,
    first: Candidate,
    second: Candidate,
    fresh_first: Seq<char>,
    fresh_second: Seq<char>,
)
    requires
        plan.unique is Some,
        is_plain_key(plan, plan.unique->0),
        same_key(plan.unique->0, first, second),
        key_resolves(dest, plan, plan.unique->0, first),
        lookup(dest, plan, first) is None,
        resolve(dest[plan.table].entries, first.old_pk) is None,
        resolve(dest[plan.table].entries, second.old_pk) is None,
    ensures
        ({
            let key = if role == SourceRole::Primary {
                first.old_pk
            } else {
                fresh_first
            };
            let after = merge_row(
                merge_row(dest, plan, role, first, fresh_first),
                plan,
                SourceRole::Secondary,
                second,
                fresh_second,
            )[plan.table];
            &&& after.rows == dest[plan.table].rows.push(
                Stored { pk: key, values: stored_values(dest, plan, first) },
            )
            &&& resolve(after.entries, first.old_pk) == Some(key)
            &&& resolve(after.entries, second.old_pk) == Some(key)
        }),
{
    let parts = plan.unique->0;
    let key = if role == SourceRole::Primary {
        first.old_pk
    } else {
        fresh_first
    };
    let was = dest[plan.table];
    let stored = Stored { pk: key, values: stored_values(dest, plan, first) };
    let middle = merge_row(dest, plan, role, first, fresh_first);
    assert(middle[plan.table].rows == was.rows.push(stored));
    assert(middle[plan.table].entries == was.entries.push((first.old_pk, key)));
    let rows = middle[plan.table].rows;
    let hits = match_hits(middle, parts, rows, second);
    lemma_first_hit(match_hits(dest, parts, was.rows, first), 0);
    assert forall|j: int| 0 <= j < was.rows.len() implies !hits[j] by {
        if is_match(middle, parts, rows[j], second) {
            lemma_match_is_old(dest, middle, plan, parts, rows[j], first, second);
            assert(match_hits(dest, parts, was.rows, first)[j]);
        }
    }
    lemma_stored_matches(dest, middle, plan, parts, first, second, key);
    assert(rows[was.rows.len() as int] == stored);
    lemma_first_hit_at(hits, was.rows.len() as int);
    assert(lookup(middle, plan, second) == Some(key));
    let after = merge_row(middle, plan, SourceRole::Secondary, second, fresh_second)[plan.table];
    assert(after.rows == rows);
    assert(after.entries == was.entries.push((first.old_pk, key)).push((second.old_pk, key)));
    lemma_resolve(was.entries, first.old_pk);
    lemma_resolve(was.entries, second.old_pk);
    let n = was.entries.len() as int;
    assert(after.entries[n] == (first.old_pk, key));
    assert(after.entries[n + 1] == (second.old_pk, key));
    assert forall|j: int| 0 <= j < n implies !entry_hits(after.entries, first.old_pk)[j]
        && !entry_hits(after.entries, second.old_pk)[j] by {
        assert(after.entries[j] == was.entries[j]);
    }
    lemma_first_hit_at(entry_hits(after.entries, first.old_pk), n);
    if second.old_pk == first.old_pk {
        lemma_first_hit_at(entry_hits(after.entries, second.old_pk), n);
    } else {
        lemma_first_hit_at(entry_hits(after.entries, second.old_pk), n + 1);
    }
}

/// An entry that is added to the identity map takes no key from it: what
/// the map gave for a key it still gives, and the key of the entry is known
/// from then on.
pub proof fn lemma_entry_added(
    entries: Seq<(Seq<char>, Seq<char>)>,
    entry: (Seq<char>, Seq<char>),
    old: Seq<char>,
)
    ensures
        resolve(entries, old) is Some ==> resolve(entries.push(entry), old) == resolve(entries, old),
        resolve(entries, old) is None && entry.0 == old ==> resolve(entries.push(entry), old)
            == Some(entry.1),
        resolve(entries, old) is None && entry.0 != old ==> resolve(entries.push(entry), old)
            is None,
{
    let longer = entries.push(entry);
    let hits = entry_hits(entries, old);
    let more = entry_hits(longer, old);
    lemma_first_hit(hits, 0);
    lemma_first_hit(more, 0);
    assert forall|j: int| 0 <= j < entries.len() implies more[j] == hits[j] by {
        assert(longer[j] == entries[j]);
    }
    match first_hit(hits) {
        Some(i) => {
            lemma_first_hit_at(more, i);
            assert(longer[i] == entries[i]);
        },
        None => {
            if entry.0 == old {
                lemma_first_hit_at(more, entries.len() as int);
            }
        },
    }
}

/// The identity map of the table knows the key of every row that was
/// merged, whatever became of the row, and keeps knowing the keys that it
/// knew.
pub proof fn lemma_merged_keys_are_known(
    dest: Map<Seq<char>, TableImage>,
    plan: MergePlanView,
    role: SourceRole,
    rows: Seq<Candidate>,
    fresh: Seq<Seq<char>>,
)
    ensures
        ({
            let before = dest[plan.table].entries;
            let after = merge_source(dest, plan, role, rows, fresh)[plan.table].entries;
            &&& forall|i: int| 0 <= i < rows.len() ==> resolve(after, (#[trigger] rows[i]).old_pk) is Some
            &&& forall|old: Seq<char>| #[trigger]
                resolve(before, old) is Some ==> resolve(after, old) == resolve(before, old)
        }),
    decreases rows.len(),
{
    if rows.len() > 0 {
        let earlier = merge_source(dest, plan, role, rows.drop_last(), fresh);
        lemma_merged_keys_are_known(dest, plan, role, rows.drop_last(), fresh);
        let row = rows.last();
        let before = dest[plan.table].entries;
        let middle = earlier[plan.table].entries;
        let after = merge_source(dest, plan, role, rows, fresh)[plan.table].entries;
        let entry = after[middle.len() as int];
        assert(after == middle.push(entry) && entry.0 == row.old_pk) by {
            let outcome = outcome_of(earlier, plan, role, row, fresh[rows.len() - 1]);
            match outcome {
                RowOutcomeView::Duplicate { old_pk, existing_id } => {
                    assert(after =~= middle.push((old_pk, existing_id)));
                },
                RowOutcomeView::Inserted { old_pk, new_pk } => {
                    assert(after =~= middle.push((old_pk, new_pk)));
                },
            }
        }
        assert forall|i: int| 0 <= i < rows.len() implies resolve(
            after,
            (#[trigger] rows[i]).old_pk,
        ) is Some by {
            lemma_entry_added(middle, entry, rows[i].old_pk);
            if i < rows.len() - 1 {
                assert(rows.drop_last()[i] == rows[i]);
            }
        }
        assert forall|old: Seq<char>| #[trigger] resolve(before, old) is Some implies resolve(
            after,
            old,
        ) == resolve(before, old) by {
            lemma_entry_added(middle, entry, old);
        }
    }
}

/// A foreign key to a row that was merged before is not lost: where the
/// identity map of the referenced table knows the key, the destination
/// stores the key that stands for it.
pub proof fn lemma_reference_survives(
    dest: Map<Seq<char>, TableImage>,
    plan: MergePlanView,
    row: Candidate,
    k: int,
)
    requires
        0 <= k < plan.columns.len(),
        plan.columns[k].source matches ColumnSourceView::Translate { table }
            && dest.contains_key(table) && resolve(dest[table].entries, row.values[k]) is Some,
    ensures
        stored_values(dest, plan, row)[k] == resolve(
            dest[plan.columns[k].source->table].entries,
            row.values[k],
        ),
        stored_values(dest, plan, row)[k] is Some,
{
}

} // verus!
