//! The order in which tables are merged: a table comes after every table
//! that it references, and a schema whose references run in a circle has no
//! order at all.

use crate::data::{Model, Schema, SchemaView};
use crate::text::lemma_first_hit;
use topological_sort::TopologicalSort;
use vstd::prelude::*;
use vstd::set_lib::{lemma_int_range, lemma_len_subset, set_int_range};

verus! {

/// `topological_sort::TopologicalSort`, the sorter that releases items once
/// nothing has to come before them. What it holds is seen through
/// `sort_nodes` and `sort_edges` alone.
#[verifier::external_type_specification]
#[verifier::external_body]
#[verifier::reject_recursive_types(T)]
pub struct ExTopologicalSort<T>(TopologicalSort<T>);

/// The items that a sorter holds.
pub uninterp spec fn sort_nodes(sorter: TopologicalSort<usize>) -> Set<usize>;

/// The dependencies that a sorter holds, each as the pair of the item that
/// comes first and the item that comes after it.
pub uninterp spec fn sort_edges(sorter: TopologicalSort<usize>) -> Set<(usize, usize)>;

/// The items that nothing has to come before.
pub open spec fn ready_nodes(nodes: Set<usize>, edges: Set<(usize, usize)>) -> Set<usize> {
    Set::new(|x: usize| nodes.contains(x) && forall|p: usize| !edges.contains((p, x)))
}

/// `TopologicalSort::new` makes a sorter that holds no item and no
/// dependency.
#[verifier::external_body]
fn new_sorter() -> (sorter: TopologicalSort<usize>)
    ensures
        sort_nodes(sorter) == Set::<usize>::empty(),
        sort_edges(sorter) == Set::<(usize, usize)>::empty(),
{
    TopologicalSort::new()
}

/// `TopologicalSort::insert` registers an item, unless it is there already;
/// the dependencies stay as they are.
#[verifier::external_body]
fn sorter_insert(sorter: &mut TopologicalSort<usize>, node: usize)
    ensures
        sort_nodes(*final(sorter)) == sort_nodes(*old(sorter)).insert(node),
        sort_edges(*final(sorter)) == sort_edges(*old(sorter)),
{
    let _ = sorter.insert(node);
}

/// `TopologicalSort::add_dependency` registers that `prec` comes before
/// `succ`, and registers both items where they are not there yet.
#[verifier::external_body]
fn sorter_add_dependency(sorter: &mut TopologicalSort<usize>, prec: usize, succ: usize)
    ensures
        sort_nodes(*final(sorter)) == sort_nodes(*old(sorter)).insert(prec).insert(succ),
        sort_edges(*final(sorter)) == sort_edges(*old(sorter)).insert((prec, succ)),
{
    sorter.add_dependency(prec, succ);
}

/// `TopologicalSort::pop_all` takes out every item that nothing has to come
/// before, each once and in no particular order, together with the
/// dependencies that start at them.
#[verifier::external_body]
fn sorter_pop_all(sorter: &mut TopologicalSort<usize>) -> (batch: Vec<usize>)
    ensures
        batch@.no_duplicates(),
        batch@.to_set() == ready_nodes(sort_nodes(*old(sorter)), sort_edges(*old(sorter))),
        sort_nodes(*final(sorter)) == sort_nodes(*old(sorter)).difference(batch@.to_set()),
        sort_edges(*final(sorter)) == sort_edges(*old(sorter)).filter(
            |e: (usize, usize)| !batch@.to_set().contains(e.0),
        ),
{
    sorter.pop_all()
}

impl SchemaView {
    /// The table that column `k` of table `a` references, if it carries a
    /// relation and its type names a table.
    pub open spec fn link(self, a: int, k: int) -> Option<int> {
        let column = self.models[a].columns[k];
        if column.has_relation() {
            self.index_of(column.ty.name)
        } else {
            None
        }
    }

    /// Table `a` holds a foreign key to table `b`.
    pub open spec fn depends(self, a: int, b: int) -> bool {
        &&& 0 <= a < self.models.len()
        &&& 0 <= b < self.models.len()
        &&& exists|k: int|
            0 <= k < self.models[a].columns.len() && #[trigger] self.link(a, k) == Some(b)
    }

    /// Table `x` is not released yet, and neither is any table that
    /// references it.
    pub open spec fn is_ready(self, released: Set<int>, x: int) -> bool {
        &&& 0 <= x < self.models.len()
        &&& !released.contains(x)
        &&& forall|a: int|
            0 <= a < self.models.len() && !released.contains(a) ==> !#[trigger] self.depends(a, x)
    }

    /// The ready tables below `k`, ascending.
    pub open spec fn ready_below(self, released: Set<int>, k: int) -> Seq<int>
        decreases k,
    {
        if k <= 0 {
            Seq::empty()
        } else if self.is_ready(released, k - 1) {
            self.ready_below(released, k - 1).push(k - 1)
        } else {
            self.ready_below(released, k - 1)
        }
    }

    /// The tables not in `released` below `k`, ascending.
    pub open spec fn held_below(self, released: Set<int>, k: int) -> Seq<int>
        decreases k,
    {
        if k <= 0 {
            Seq::empty()
        } else if !released.contains(k - 1) {
            self.held_below(released, k - 1).push(k - 1)
        } else {
            self.held_below(released, k - 1)
        }
    }

    /// Releases the ready tables, round after round, for at most `rounds`
    /// rounds: the tables in the order of their release.
    pub open spec fn release(self, released: Set<int>, rounds: nat) -> Seq<int>
        decreases rounds,
    {
        let layer = self.ready_below(released, self.models.len() as int);
        if rounds == 0 || layer.len() == 0 {
            Seq::empty()
        } else {
            layer + self.release(released.union(layer.to_set()), (rounds - 1) as nat)
        }
    }

    /// The tables in the order of their release, starting with those that no
    /// table references.
    pub open spec fn release_order(self) -> Seq<int> {
        self.release(Set::empty(), self.models.len())
    }

    /// The tables in the order of their merge: the release order backwards.
    pub open spec fn merge_order(self) -> Seq<int> {
        self.release_order().reverse()
    }

    /// Table `x` is not gone yet and references no table but such as are
    /// gone.
    pub open spec fn is_loose(self, gone: Set<int>, x: int) -> bool {
        &&& 0 <= x < self.models.len()
        &&& !gone.contains(x)
        &&& forall|b: int|
            0 <= b < self.models.len() && !gone.contains(b) ==> !#[trigger] self.depends(x, b)
    }

    /// The loose tables.
    pub open spec fn loose(self, gone: Set<int>) -> Set<int> {
        Set::new(|x: int| self.is_loose(gone, x))
    }

    /// The tables that are gone after `rounds` rounds, each of which takes
    /// the loose tables away.
    pub open spec fn trim(self, gone: Set<int>, rounds: nat) -> Set<int>
        decreases rounds,
    {
        if rounds == 0 {
            gone
        } else {
            self.trim(gone.union(self.loose(gone)), (rounds - 1) as nat)
        }
    }

    /// The tables that references running in a circle keep from being
    /// ordered, ascending: the tables that are never released, without
    /// those that only hang on the others, which is to say that are loose
    /// once the released tables are gone, or once those are gone too, and
    /// so on.
    pub open spec fn circle(self) -> Seq<int> {
        self.held_below(
            self.trim(self.release_order().to_set(), self.models.len()),
            self.models.len() as int,
        )
    }

    /// `order` holds every table once, and each table behind all the tables
    /// that it references.
    pub open spec fn is_merge_order(self, order: Seq<int>) -> bool {
        &&& order.len() == self.models.len()
        &&& order.no_duplicates()
        &&& forall|i: int| 0 <= i < order.len() ==> 0 <= #[trigger] order[i] < self.models.len()
        &&& forall|i: int, j: int|
            0 <= i < order.len() && 0 <= j < order.len() && self.depends(
                #[trigger] order[i],
                #[trigger] order[j],
            ) ==> j < i
    }

    /// Every table of the non-empty list `tables` is referenced by a table of
    /// the list and references a table of the list: following the
    /// references from any of them, forwards or backwards, never leaves the
    /// list, so each of them lies on a circle of references or between two.
    pub open spec fn is_circular(self, tables: Seq<int>) -> bool {
        &&& tables.len() > 0
        &&& forall|i: int|
            0 <= i < tables.len() ==> #[trigger] self.referenced_within(tables, tables[i])
        &&& forall|i: int|
            0 <= i < tables.len() ==> #[trigger] self.references_within(tables, tables[i])
    }

    /// Some table of `tables` holds a foreign key to table `x`.
    pub open spec fn referenced_within(self, tables: Seq<int>, x: int) -> bool {
        exists|j: int| 0 <= j < tables.len() && self.depends(#[trigger] tables[j], x)
    }

    /// Table `x` holds a foreign key to some table of `tables`.
    pub open spec fn references_within(self, tables: Seq<int>, x: int) -> bool {
        exists|j: int| 0 <= j < tables.len() && self.depends(x, #[trigger] tables[j])
    }
}

/// The tables that keep a schema from being ordered: those that lie on a
/// circle of references or between two.
#[derive(Debug)]
pub struct DependencyCycle {
    /// The positions of the tables in the schema, ascending.
    pub tables: Vec<usize>,
}

/// The list of positions as integers.
pub open spec fn positions(v: Seq<usize>) -> Seq<int> {
    Seq::new(v.len(), |i: int| v[i] as int)
}

/// The tables marked in `marks`.
pub open spec fn marked(marks: Seq<bool>) -> Set<int> {
    Set::new(|x: int| 0 <= x < marks.len() && marks[x])
}

/// What a list holds after a push.
proof fn lemma_push_contains(s: Seq<int>, v: int, x: int)
    ensures
        s.push(v).contains(x) <==> s.contains(x) || x == v,
{
    let pushed = s.push(v);
    if s.contains(x) {
        let i = choose|i: int| 0 <= i < s.len() && s[i] == x;
        assert(pushed[i] == x);
    }
    if x == v {
        assert(pushed[s.len() as int] == x);
    }
    if pushed.contains(x) {
        let i = choose|i: int| 0 <= i < pushed.len() && pushed[i] == x;
        if i < s.len() {
            assert(s[i] == x);
        }
    }
}

/// What `ready_below` holds: the ready tables below `k`, each once.
proof fn lemma_ready_below(g: SchemaView, released: Set<int>, k: int)
    requires
        0 <= k,
    ensures
        forall|x: int|
            #[trigger] g.ready_below(released, k).contains(x) <==> 0 <= x < k && g.is_ready(
                released,
                x,
            ),
        g.ready_below(released, k).no_duplicates(),
    decreases k,
{
    if k > 0 {
        lemma_ready_below(g, released, k - 1);
        let r = g.ready_below(released, k - 1);
        if g.is_ready(released, k - 1) {
            let pushed = r.push(k - 1);
            assert(g.ready_below(released, k) == pushed);
            assert forall|x: int| #[trigger] pushed.contains(x) <==> 0 <= x < k && g.is_ready(
                released,
                x,
            ) by {
                lemma_push_contains(r, k - 1, x);
            }
            assert(!r.contains(k - 1));
            assert forall|i: int, j: int|
                0 <= i < pushed.len() && 0 <= j < pushed.len() && i != j implies #[trigger] pushed[i]
                != #[trigger] pushed[j] by {
                if i < r.len() {
                    assert(r.contains(r[i]));
                }
                if j < r.len() {
                    assert(r.contains(r[j]));
                }
            }
        } else {
            assert(g.ready_below(released, k) == r);
        }
    } else {
        assert(g.ready_below(released, k) =~= Seq::<int>::empty());
    }
}

/// What `held_below` holds: the tables below `k` that are not released.
proof fn lemma_held_below(g: SchemaView, released: Set<int>, k: int)
    requires
        0 <= k,
    ensures
        forall|x: int|
            #[trigger] g.held_below(released, k).contains(x) <==> 0 <= x < k && !released.contains(
                x,
            ),
    decreases k,
{
    if k > 0 {
        lemma_held_below(g, released, k - 1);
        let h = g.held_below(released, k - 1);
        if !released.contains(k - 1) {
            let pushed = h.push(k - 1);
            assert(g.held_below(released, k) == pushed);
            assert forall|x: int| #[trigger] pushed.contains(x) <==> 0 <= x < k
                && !released.contains(x) by {
                lemma_push_contains(h, k - 1, x);
            }
        } else {
            assert(g.held_below(released, k) == h);
        }
    } else {
        assert(g.held_below(released, k) =~= Seq::<int>::empty());
    }
}

/// A list of distinct tables that leaves a table out is shorter than the
/// schema.
proof fn lemma_room_left(s: Seq<int>, n: int, x: int)
    requires
        s.no_duplicates(),
        forall|i: int| 0 <= i < s.len() ==> 0 <= #[trigger] s[i] < n,
        0 <= x < n,
        !s.contains(x),
    ensures
        s.len() < n,
{
    broadcast use vstd::set::group_set_axioms;

    lemma_int_range(0, n);
    let range = set_int_range(0, n);
    assert(s.to_set().subset_of(range.remove(x))) by {
        assert forall|y: int| s.to_set().contains(y) implies range.remove(x).contains(y) by {
            let i = choose|i: int| 0 <= i < s.len() && s[i] == y;
            assert(0 <= s[i] < n);
        }
    }
    lemma_len_subset(s.to_set(), range.remove(x));
    s.unique_seq_to_set();
}

/// A list of distinct tables that leaves none out is as long as the schema.
proof fn lemma_all_taken(s: Seq<int>, n: int)
    requires
        0 <= n,
        s.no_duplicates(),
        forall|i: int| 0 <= i < s.len() ==> 0 <= #[trigger] s[i] < n,
        forall|x: int| 0 <= x < n ==> s.contains(x),
    ensures
        s.len() == n,
{
    broadcast use vstd::set::group_set_axioms;

    lemma_int_range(0, n);
    assert(s.to_set() =~= set_int_range(0, n)) by {
        assert forall|y: int| s.to_set().contains(y) implies set_int_range(0, n).contains(y) by {
            let i = choose|i: int| 0 <= i < s.len() && s[i] == y;
            assert(0 <= s[i] < n);
        }
    }
    s.unique_seq_to_set();
}

/// No order exists for a schema with a circular list of tables: the two
/// results of `Schema::order` exclude each other.
pub proof fn lemma_circular_has_no_order(g: SchemaView, tables: Seq<int>, order: Seq<int>)
    requires
        g.is_circular(tables),
        forall|i: int| 0 <= i < tables.len() ==> 0 <= #[trigger] tables[i] < g.models.len(),
    ensures
        !g.is_merge_order(order),
{
    if g.is_merge_order(order) {
        lemma_all_present(order, g.models.len() as int);
        // The table of the list that the order merges last is referenced by
        // a table of the list, which the order would have to merge later.
        lemma_last_of(order, tables, order.len() as int);
        let last = last_of(order, tables, order.len() as int);
        assert(last >= 0) by {
            assert(0 <= tables[0] < g.models.len());
            assert(order.contains(tables[0]));
            let at = choose|p: int| 0 <= p < order.len() && order[p] == tables[0];
            assert(tables.contains(order[at]));
        }
        let i = choose|i: int| 0 <= i < tables.len() && tables[i] == order[last];
        assert(g.referenced_within(tables, tables[i]));
        let j = choose|j: int|
            0 <= j < tables.len() && g.depends(#[trigger] tables[j], tables[i]);
        assert(0 <= tables[j] < g.models.len());
        assert(order.contains(tables[j]));
        let p = choose|p: int| 0 <= p < order.len() && order[p] == tables[j];
        assert(g.depends(order[p], order[last]));
        assert(last < p);
        assert(tables.contains(order[p]));
    }
}

/// A list of distinct tables as long as the schema leaves none out.
pub proof fn lemma_all_present(s: Seq<int>, n: int)
    requires
        s.len() == n,
        s.no_duplicates(),
        forall|i: int| 0 <= i < s.len() ==> 0 <= #[trigger] s[i] < n,
    ensures
        forall|x: int| 0 <= x < n ==> s.contains(x),
{
    assert forall|x: int| 0 <= x < n implies s.contains(x) by {
        if !s.contains(x) {
            lemma_room_left(s, n, x);
        }
    }
}

/// The last position below `k` of `order` that holds a table of `tables`.
spec fn last_of(order: Seq<int>, tables: Seq<int>, k: int) -> int
    decreases k,
{
    if k <= 0 {
        -1
    } else if tables.contains(order[k - 1]) {
        k - 1
    } else {
        last_of(order, tables, k - 1)
    }
}

proof fn lemma_last_of(order: Seq<int>, tables: Seq<int>, k: int)
    requires
        0 <= k <= order.len(),
    ensures
        -1 <= last_of(order, tables, k) < k,
        last_of(order, tables, k) >= 0 ==> tables.contains(order[last_of(order, tables, k)]),
        forall|p: int|
            last_of(order, tables, k) < p < k ==> !tables.contains(#[trigger] order[p]),
    decreases k,
{
    if k > 0 && !tables.contains(order[k - 1]) {
        lemma_last_of(order, tables, k - 1);
    }
}

/// A column references a table of the schema or none.
proof fn lemma_link_in_range(g: SchemaView, a: int, k: int)
    ensures
        g.link(a, k) matches Some(b) ==> 0 <= b < g.models.len(),
{
    let column = g.models[a].columns[k];
    lemma_first_hit(g.name_hits(column.ty.name), 0);
}

/// What the sorter and the lists hold between two rounds of releases.
spec fn draining(
    g: SchemaView,
    nodes: Set<usize>,
    edges: Set<(usize, usize)>,
    released: Seq<bool>,
    order: Seq<usize>,
) -> bool {
    &&& released.len() == g.models.len()
    &&& released.len() <= usize::MAX
    &&& nodes == Set::new(|x: usize| x < released.len() && !released[x as int])
    &&& edges == Set::new(
        |e: (usize, usize)|
            e.0 < released.len() && !released[e.0 as int] && g.depends(e.0 as int, e.1 as int),
    )
    &&& forall|i: int, j: int|
        0 <= i < j < order.len() ==> #[trigger] order[i] != #[trigger] order[j]
    &&& forall|i: int|
        0 <= i < order.len() ==> (#[trigger] order[i]) < released.len() && released[order[i] as int]
    &&& forall|x: int|
        0 <= x < released.len() && released[x] ==> #[trigger] positions(order).contains(x)
    &&& forall|i: int, a: int|
        0 <= i < order.len() && #[trigger] g.depends(a, order[i] as int) ==> exists|j: int|
            0 <= j < i && #[trigger] order[j] == a
}

/// The sorter calls a table ready exactly when no table that is still held
/// references it.
proof fn lemma_ready_agrees(
    g: SchemaView,
    nodes: Set<usize>,
    edges: Set<(usize, usize)>,
    released: Seq<bool>,
    order: Seq<usize>,
    x: usize,
)
    requires
        draining(g, nodes, edges, released, order),
    ensures
        ready_nodes(nodes, edges).contains(x) <==> g.is_ready(marked(released), x as int),
{
    let n = released.len();
    if ready_nodes(nodes, edges).contains(x) {
        assert forall|a: int| 0 <= a < n && !marked(released).contains(a) implies !#[trigger] g.depends(
            a,
            x as int,
        ) by {
            assert(!edges.contains((a as usize, x)));
        }
    }
    if g.is_ready(marked(released), x as int) {
        assert forall|p: usize| !edges.contains((p, x)) by {
            if edges.contains((p, x)) {
                assert(!marked(released).contains(p as int));
                assert(g.depends(p as int, x as int));
            }
        }
    }
}

impl Schema {
    /// The table that column `k` of table `a` references.
    fn link(&self, a: usize, k: usize) -> (target: Option<usize>)
        requires
            a < self.models.len(),
            k < self.models[a as int].columns.len(),
        ensures
            match self@.link(a as int, k as int) {
                Some(b) => target == Some(b as usize) && 0 <= b < self.models.len(),
                None => target is None,
            },
    {
        proof {
            lemma_link_in_range(self@, a as int, k as int);
        }
        let column = &self.models[a].columns[k];
        if column.relation.is_some() {
            self.index_of(column.ty.name.as_str())
        } else {
            None
        }
    }

    /// A sorter that holds every table and, for every foreign key, that the
    /// table that holds it is released before the table it references.
    fn dependency_sorter(&self) -> (sorter: TopologicalSort<usize>)
        ensures
            sort_nodes(sorter) == Set::new(|x: usize| x < self.models.len()),
            sort_edges(sorter) == Set::new(
                |e: (usize, usize)| self@.depends(e.0 as int, e.1 as int),
            ),
    {
        let n = self.models.len();
        let mut sorter = new_sorter();
        let mut i: usize = 0;
        while i < n
            invariant
                i <= n,
                n == self.models.len(),
                sort_nodes(sorter) == Set::new(|x: usize| x < i),
                sort_edges(sorter) == Set::<(usize, usize)>::empty(),
            decreases n - i,
        {
            sorter_insert(&mut sorter, i);
            assert(sort_nodes(sorter) =~= Set::new(|x: usize| x < i + 1));
            i = i + 1;
        }
        let mut a: usize = 0;
        while a < n
            invariant
                a <= n,
                n == self.models.len(),
                sort_nodes(sorter) == Set::new(|x: usize| x < n),
                sort_edges(sorter) == Set::new(
                    |e: (usize, usize)| e.0 < a && self@.depends(e.0 as int, e.1 as int),
                ),
            decreases n - a,
        {
            let columns = self.models[a].columns.len();
            let mut k: usize = 0;
            while k < columns
                invariant
                    a < n,
                    k <= columns,
                    n == self.models.len(),
                    columns == self.models[a as int].columns.len(),
                    sort_nodes(sorter) == Set::new(|x: usize| x < n),
                    sort_edges(sorter) == Set::new(
                        |e: (usize, usize)|
                            (e.0 < a && self@.depends(e.0 as int, e.1 as int)) || (e.0 == a
                                && exists|kk: int|
                                0 <= kk < k && #[trigger] self@.link(a as int, kk) == Some(
                                    e.1 as int,
                                )),
                    ),
                decreases columns - k,
            {
                let ghost before = sort_edges(sorter);
                match self.link(a, k) {
                    Some(b) => {
                        sorter_add_dependency(&mut sorter, a, b);
                        assert(sort_nodes(sorter) =~= Set::new(|x: usize| x < n));
                    },
                    None => {},
                }
                assert(sort_edges(sorter) =~= Set::new(
                    |e: (usize, usize)|
                        (e.0 < a && self@.depends(e.0 as int, e.1 as int)) || (e.0 == a
                            && exists|kk: int|
                            0 <= kk < k + 1 && #[trigger] self@.link(a as int, kk) == Some(
                                e.1 as int,
                            )),
                )) by {
                    let after = sort_edges(sorter);
                    assert forall|e: (usize, usize)| after.contains(e) <==> ((e.0 < a
                        && self@.depends(e.0 as int, e.1 as int)) || (e.0 == a && exists|kk: int|
                        0 <= kk < k + 1 && #[trigger] self@.link(a as int, kk) == Some(
                            e.1 as int,
                        ))) by {
                        if e.0 == a && self@.link(a as int, k as int) == Some(e.1 as int) {
                            assert(after.contains(e));
                        }
                        if before.contains(e) && e.0 == a {
                            let kk = choose|kk: int|
                                0 <= kk < k && #[trigger] self@.link(a as int, kk) == Some(
                                    e.1 as int,
                                );
                            assert(0 <= kk < k + 1);
                        }
                    }
                }
                k = k + 1;
            }
            assert(sort_edges(sorter) =~= Set::new(
                |e: (usize, usize)| e.0 < a + 1 && self@.depends(e.0 as int, e.1 as int),
            )) by {
                let g = self@;
                assert forall|e: (usize, usize)|
                    (e.0 == a && exists|kk: int|
                        0 <= kk < k && #[trigger] g.link(a as int, kk) == Some(e.1 as int))
                        <==> (e.0 == a && g.depends(e.0 as int, e.1 as int)) by {
                    if e.0 == a && exists|kk: int|
                        0 <= kk < k && #[trigger] g.link(a as int, kk) == Some(e.1 as int) {
                        let kk = choose|kk: int|
                            0 <= kk < k && #[trigger] g.link(a as int, kk) == Some(e.1 as int);
                        lemma_link_in_range(g, a as int, kk);
                    }
                }
            }
            a = a + 1;
        }
        assert(sort_edges(sorter) =~= Set::new(
            |e: (usize, usize)| self@.depends(e.0 as int, e.1 as int),
        ));
        sorter
    }
}

/// A ready table shows that a round releases something and that the list of
/// the released tables has room for it.
proof fn lemma_batch_is_layer(
    g: SchemaView,
    nodes: Set<usize>,
    edges: Set<(usize, usize)>,
    released: Seq<bool>,
    order: Seq<usize>,
    x: usize,
)
    requires
        draining(g, nodes, edges, released, order),
        ready_nodes(nodes, edges).contains(x),
    ensures
        g.ready_below(marked(released), g.models.len() as int).len() > 0,
        order.len() < g.models.len(),
{
    let n = g.models.len() as int;
    let held = marked(released);
    lemma_ready_agrees(g, nodes, edges, released, order, x);
    lemma_ready_below(g, held, n);
    assert(g.ready_below(held, n).contains(x as int));
    assert(!positions(order).contains(x as int)) by {
        if positions(order).contains(x as int) {
            let q = choose|q: int|
                0 <= q < positions(order).len() && positions(order)[q] == x as int;
            assert(released[order[q] as int]);
        }
    }
    assert(positions(order).no_duplicates());
    assert forall|q: int| 0 <= q < positions(order).len() implies 0 <= #[trigger] positions(
        order,
    )[q] < n by {
        assert(order[q] < n);
    }
    lemma_room_left(positions(order), n, x as int);
}

/// Once the sorter calls no table ready, the releases are complete.
proof fn lemma_drained(
    g: SchemaView,
    nodes: Set<usize>,
    edges: Set<(usize, usize)>,
    released: Seq<bool>,
    order: Seq<usize>,
    rounds: nat,
)
    requires
        draining(g, nodes, edges, released, order),
        forall|x: usize| !ready_nodes(nodes, edges).contains(x),
        positions(order) + g.release(marked(released), rounds) == g.release_order(),
    ensures
        drained(g, released, order),
{
    let n = g.models.len() as int;
    let held = marked(released);
    lemma_ready_below(g, held, n);
    let layer = g.ready_below(held, n);
    if layer.len() > 0 {
        assert(layer.contains(layer[0]));
        lemma_ready_agrees(g, nodes, edges, released, order, layer[0] as usize);
    }
    assert(positions(order) =~= g.release_order());
    assert forall|x: int| 0 <= x < released.len() && !released[x] implies #[trigger] has_held_referrer(
        g,
        released,
        x,
    ) by {
        let node = x as usize;
        assert(nodes.contains(node));
        assert(!ready_nodes(nodes, edges).contains(node));
        let p = choose|p: usize| edges.contains((p, node));
        assert(edges.contains((p, node)));
        assert(g.depends(p as int, x));
    }
}

/// The released tables are the marked ones.
proof fn lemma_released_set(g: SchemaView, released: Seq<bool>, order: Seq<usize>)
    requires
        drained(g, released, order),
    ensures
        g.release_order().to_set() == marked(released),
{
    assert(g.release_order().to_set() =~= marked(released)) by {
        assert forall|x: int| g.release_order().to_set().contains(x) <==> marked(
            released,
        ).contains(x) by {
            if positions(order).contains(x) {
                let q = choose|q: int|
                    0 <= q < positions(order).len() && positions(order)[q] == x;
                assert(released[order[q] as int]);
            }
        }
    }
}

/// With every table released, the releases read backwards are an order of
/// merge.
proof fn lemma_backwards(g: SchemaView, released: Seq<bool>, order: Seq<usize>)
    requires
        drained(g, released, order),
        forall|x: int| 0 <= x < released.len() ==> #[trigger] released[x],
    ensures
        g.is_merge_order(g.merge_order()),
        g.release_order().len() == g.models.len(),
{
    let n = g.models.len() as int;
    let forward = positions(order);
    assert(forward.no_duplicates());
    assert forall|q: int| 0 <= q < forward.len() implies 0 <= #[trigger] forward[q] < n by {
        assert(order[q] < n);
    }
    assert forall|x: int| 0 <= x < n implies forward.contains(x) by {
        assert(released[x]);
    }
    lemma_all_taken(forward, n);
    let backward = forward.reverse();
    assert forall|a: int, b: int|
        0 <= a < backward.len() && 0 <= b < backward.len() && g.depends(
            #[trigger] backward[a],
            #[trigger] backward[b],
        ) implies b < a by {
        let qa = n - 1 - a;
        let qb = n - 1 - b;
        assert(backward[a] == order[qa]);
        assert(backward[b] == order[qb]);
        assert(g.depends(order[qa] as int, order[qb] as int));
        let j = choose|j: int| 0 <= j < qb && #[trigger] order[j] == order[qa];
        if j != qa {
            if j < qa {
                assert(order[j] != order[qa]);
            } else {
                assert(order[qa] != order[j]);
            }
        }
    }
    assert forall|a: int, b: int|
        0 <= a < backward.len() && 0 <= b < backward.len() && a != b implies #[trigger] backward[a]
        != #[trigger] backward[b] by {
        let qa = n - 1 - a;
        let qb = n - 1 - b;
        if qa < qb {
            assert(order[qa] != order[qb]);
        } else {
            assert(order[qb] != order[qa]);
        }
    }
}

/// A table that is held shows that the list of the tables that are gone is
/// shorter than the schema.
proof fn lemma_held_has_room(gone: Seq<bool>, list: Seq<usize>, x: int)
    requires
        listed(gone, list),
        0 <= x < gone.len(),
        !gone[x],
    ensures
        list.len() < gone.len(),
{
    let n = gone.len() as int;
    assert(!positions(list).contains(x)) by {
        if positions(list).contains(x) {
            let q = choose|q: int| 0 <= q < positions(list).len() && positions(list)[q] == x;
            assert(gone[list[q] as int]);
        }
    }
    assert(positions(list).no_duplicates());
    assert forall|q: int| 0 <= q < positions(list).len() implies 0 <= #[trigger] positions(
        list,
    )[q] < n by {
        assert(list[q] < n);
    }
    lemma_room_left(positions(list), n, x);
}

/// The list holds no table twice, and every table of it is marked.
spec fn listed(marks: Seq<bool>, list: Seq<usize>) -> bool {
    &&& forall|i: int, j: int| 0 <= i < j < list.len() ==> #[trigger] list[i] != #[trigger] list[j]
    &&& forall|i: int|
        0 <= i < list.len() ==> (#[trigger] list[i]) < marks.len() && marks[list[i] as int]
}

/// Some table that is held references table `x`.
spec fn has_held_referrer(g: SchemaView, gone: Seq<bool>, x: int) -> bool {
    exists|p: int| 0 <= p < gone.len() && !gone[p] && #[trigger] g.depends(p, x)
}

/// Every table that is held is referenced by a table that is held.
spec fn held_referenced(g: SchemaView, gone: Seq<bool>) -> bool {
    forall|x: int| 0 <= x < gone.len() && !gone[x] ==> #[trigger] has_held_referrer(g, gone, x)
}

/// Some table is held.
spec fn some_held(gone: Seq<bool>) -> bool {
    exists|x: int| 0 <= x < gone.len() && !#[trigger] gone[x]
}

/// With every table released, the order of the releases is complete.
proof fn lemma_complete(g: SchemaView, released: Seq<bool>, order: Seq<usize>)
    requires
        drained(g, released, order),
        order.len() == g.models.len(),
    ensures
        g.is_merge_order(g.merge_order()),
        g.release_order().len() == g.models.len(),
{
    let n = g.models.len() as int;
    let forward = positions(order);
    assert(forward.no_duplicates());
    assert forall|q: int| 0 <= q < forward.len() implies 0 <= #[trigger] forward[q] < n by {
        assert(order[q] < n);
    }
    lemma_all_present(forward, n);
    assert forall|x: int| 0 <= x < released.len() implies #[trigger] released[x] by {
        assert(forward.contains(x));
        let q = choose|q: int| 0 <= q < forward.len() && forward[q] == x;
        assert(released[order[q] as int]);
    }
    lemma_backwards(g, released, order);
}

/// Where the releases leave a table out, some table is held, and every
/// table that is held is referenced by one that is held.
proof fn lemma_incomplete(g: SchemaView, released: Seq<bool>, order: Seq<usize>)
    requires
        drained(g, released, order),
        order.len() != g.models.len(),
    ensures
        some_held(released),
        held_referenced(g, released),
        listed(released, order),
        g.release_order().len() < g.models.len(),
        g.release_order().to_set() == marked(released),
{
    let n = g.models.len() as int;
    let forward = positions(order);
    assert(forward.len() == order.len());
    assert(forward.no_duplicates());
    assert forall|q: int| 0 <= q < forward.len() implies 0 <= #[trigger] forward[q] < n by {
        assert(order[q] < n);
    }
    if !some_held(released) {
        assert forall|x: int| 0 <= x < n implies forward.contains(x) by {
            assert(released[x]);
        }
        lemma_all_taken(forward, n);
    }
    let x = choose|x: int| 0 <= x < released.len() && !#[trigger] released[x];
    lemma_held_has_room(released, order, x);
    lemma_released_set(g, released, order);
}

/// Once no table is loose, further rounds take nothing away.
proof fn lemma_trim_fixed(g: SchemaView, gone: Set<int>, rounds: nat)
    requires
        forall|x: int| !g.is_loose(gone, x),
    ensures
        g.trim(gone, rounds) == gone,
    decreases rounds,
{
    if rounds > 0 {
        assert(gone.union(g.loose(gone)) =~= gone);
        lemma_trim_fixed(g, gone, (rounds - 1) as nat);
    }
}

/// A round that takes the loose tables away leaves some table held, and
/// every table that is held referenced by one that is held.
proof fn lemma_round_keeps(g: SchemaView, before: Seq<bool>, after: Seq<bool>)
    requires
        before.len() == g.models.len(),
        after.len() == before.len(),
        forall|x: int|
            0 <= x < before.len() ==> #[trigger] after[x] == (before[x] || g.is_loose(
                marked(before),
                x,
            )),
        held_referenced(g, before),
        some_held(before),
    ensures
        held_referenced(g, after),
        some_held(after),
        marked(after) == marked(before).union(g.loose(marked(before))),
{
    let gone = marked(before);
    assert forall|x: int| 0 <= x < after.len() && !after[x] implies #[trigger] has_held_referrer(
        g,
        after,
        x,
    ) by {
        assert(after[x] == (before[x] || g.is_loose(gone, x)));
        assert(!before[x]);
        assert(has_held_referrer(g, before, x));
        let p = choose|p: int| 0 <= p < before.len() && !before[p] && #[trigger] g.depends(p, x);
        assert(!gone.contains(x));
        assert(!g.is_loose(gone, p));
        assert(after[p] == (before[p] || g.is_loose(gone, p)));
        assert(!after[p] && g.depends(p, x));
    }
    let x = choose|x: int| 0 <= x < before.len() && !#[trigger] before[x];
    assert(has_held_referrer(g, before, x));
    let p = choose|p: int| 0 <= p < before.len() && !before[p] && #[trigger] g.depends(p, x);
    assert(!gone.contains(x));
    assert(!g.is_loose(gone, p));
    assert(after[p] == (before[p] || g.is_loose(gone, p)));
    assert(!after[p]);
    assert(marked(after) =~= gone.union(g.loose(gone))) by {
        assert forall|y: int| marked(after).contains(y) <==> gone.union(g.loose(gone)).contains(
            y,
        ) by {
            if 0 <= y < before.len() {
                assert(after[y] == (before[y] || g.is_loose(gone, y)));
            }
        }
    }
}

/// The tables that are held once no table is ready and none is loose run in
/// a circle.
proof fn lemma_held_circle(g: SchemaView, gone: Seq<bool>, tables: Seq<int>)
    requires
        gone.len() == g.models.len(),
        tables == g.held_below(marked(gone), g.models.len() as int),
        held_referenced(g, gone),
        some_held(gone),
        forall|x: int| !g.is_loose(marked(gone), x),
    ensures
        g.is_circular(tables),
        forall|i: int| 0 <= i < tables.len() ==> 0 <= #[trigger] tables[i] < g.models.len(),
{
    let n = g.models.len() as int;
    let held = marked(gone);
    lemma_held_below(g, held, n);
    assert forall|i: int| 0 <= i < tables.len() implies 0 <= #[trigger] tables[i] < n by {
        assert(tables.contains(tables[i]));
    }
    let x = choose|x: int| 0 <= x < gone.len() && !#[trigger] gone[x];
    assert(!held.contains(x));
    assert(tables.contains(x));
    assert(tables.len() > 0);
    assert forall|q: int| 0 <= q < tables.len() implies #[trigger] g.referenced_within(
        tables,
        tables[q],
    ) by {
        let y = tables[q];
        assert(tables.contains(y));
        assert(!gone[y]);
        assert(has_held_referrer(g, gone, y));
        let p = choose|p: int| 0 <= p < gone.len() && !gone[p] && #[trigger] g.depends(p, y);
        assert(!held.contains(p));
        assert(tables.contains(p));
        let j = choose|j: int| 0 <= j < tables.len() && tables[j] == p;
        assert(g.depends(tables[j], y));
    }
    assert forall|q: int| 0 <= q < tables.len() implies #[trigger] g.references_within(
        tables,
        tables[q],
    ) by {
        let y = tables[q];
        assert(tables.contains(y));
        assert(!held.contains(y));
        assert(!g.is_loose(held, y));
        let b = choose|b: int| 0 <= b < n && !held.contains(b) && #[trigger] g.depends(y, b);
        assert(tables.contains(b));
        let j = choose|j: int| 0 <= j < tables.len() && tables[j] == b;
        assert(g.depends(y, tables[j]));
    }
}

/// A list of `n` marks, none set.
fn no_marks(n: usize) -> (marks: Vec<bool>)
    ensures
        marks.len() == n,
        forall|x: int| 0 <= x < n ==> !#[trigger] marks[x],
{
    let mut marks: Vec<bool> = Vec::new();
    while marks.len() < n
        invariant
            marks.len() <= n,
            forall|x: int| 0 <= x < marks.len() ==> !#[trigger] marks[x],
        decreases n - marks.len(),
    {
        marks.push(false);
    }
    marks
}

/// For each table below `n`, whether `batch` holds it.
fn batch_marks(batch: &Vec<usize>, n: usize) -> (marks: Vec<bool>)
    requires
        forall|q: int| 0 <= q < batch.len() ==> #[trigger] batch[q] < n,
    ensures
        marks.len() == n,
        forall|x: int| 0 <= x < n ==> (#[trigger] marks[x] <==> batch@.contains(x as usize)),
{
    let mut marks = no_marks(n);
    let mut b: usize = 0;
    while b < batch.len()
        invariant
            b <= batch.len(),
            marks.len() == n,
            forall|q: int| 0 <= q < batch.len() ==> #[trigger] batch[q] < n,
            forall|x: int|
                0 <= x < n ==> (#[trigger] marks[x] <==> exists|q: int|
                    0 <= q < b && #[trigger] batch[q] == x),
        decreases batch.len() - b,
    {
        let x = batch[b];
        marks.set(x, true);
        b = b + 1;
    }
    marks
}

/// Releases the ready tables, which `batch` holds in some order, in
/// ascending order.
fn release_batch(
    g: Ghost<SchemaView>,
    nodes: Ghost<Set<usize>>,
    edges: Ghost<Set<(usize, usize)>>,
    batch: &Vec<usize>,
    released: &mut Vec<bool>,
    order: &mut Vec<usize>,
)
    requires
        draining(g@, nodes@, edges@, old(released)@, old(order)@),
        batch@.to_set() == ready_nodes(nodes@, edges@),
    ensures
        draining(
            g@,
            nodes@.difference(batch@.to_set()),
            edges@.filter(|e: (usize, usize)| !batch@.to_set().contains(e.0)),
            final(released)@,
            final(order)@,
        ),
        positions(final(order)@) == positions(old(order)@) + g@.ready_below(
            marked(old(released)@),
            g@.models.len() as int,
        ),
        marked(final(released)@) == marked(old(released)@).union(
            g@.ready_below(marked(old(released)@), g@.models.len() as int).to_set(),
        ),
{
    let n = released.len();
    let ghost was_released = released@;
    let ghost was_order = order@;
    let ghost held = marked(was_released);
    proof {
        assert forall|q: int| 0 <= q < batch.len() implies #[trigger] batch[q] < n by {
            assert(batch@.to_set().contains(batch[q]));
        }
    }
    let in_batch = batch_marks(batch, n);
    proof {
        assert forall|x: int| 0 <= x < n implies (#[trigger] in_batch[x] <==> g@.is_ready(
            held,
            x,
        )) by {
            lemma_ready_agrees(g@, nodes@, edges@, was_released, was_order, x as usize);
            assert(batch@.to_set().contains(x as usize) <==> batch@.contains(x as usize));
        }
    }
    let mut i: usize = 0;
    while i < n
        invariant
            i <= n,
            n == was_released.len(),
            released.len() == n,
            in_batch.len() == n,
            held == marked(was_released),
            draining(g@, nodes@, edges@, was_released, was_order),
            forall|x: int| 0 <= x < n ==> (#[trigger] in_batch[x] <==> g@.is_ready(held, x)),
            forall|x: int|
                0 <= x < i ==> #[trigger] released[x] == (was_released[x] || in_batch[x]),
            forall|x: int| i <= x < n ==> #[trigger] released[x] == was_released[x],
            positions(order@) == positions(was_order) + g@.ready_below(held, i as int),
            order.len() >= was_order.len(),
            forall|q: int| 0 <= q < was_order.len() ==> #[trigger] order[q] == was_order[q],
            forall|q: int|
                was_order.len() <= q < order.len() ==> (#[trigger] order[q]) < i && in_batch[order[q] as int],
            forall|p: int, q: int|
                was_order.len() <= p < q < order.len() ==> (#[trigger] order[p]) < (
                #[trigger] order[q]),
        decreases n - i,
    {
        if in_batch[i] {
            let ghost before = order@;
            order.push(i);
            released.set(i, true);
            assert(positions(order@) =~= positions(before).push(i as int));
        }
        assert(positions(order@) =~= positions(was_order) + g@.ready_below(held, i as int + 1));
        i = i + 1;
    }
    proof {
        let layer = g@.ready_below(held, n as int);
        lemma_ready_below(g@, held, n as int);
        let now = released@;
        let batch_set = batch@.to_set();
        assert forall|x: int| 0 <= x < n implies (batch_set.contains(x as usize) <==> in_batch[x]) by {
            assert(batch_set.contains(x as usize) <==> batch@.contains(x as usize));
        }
        assert(marked(now) =~= held.union(layer.to_set())) by {
            assert forall|x: int| marked(now).contains(x) <==> held.union(layer.to_set()).contains(
                x,
            ) by {
                assert(layer.to_set().contains(x) <==> layer.contains(x));
                if 0 <= x < n {
                    assert(now[x] == (was_released[x] || in_batch[x]));
                }
            }
        }
        assert(nodes@.difference(batch_set) =~= Set::new(
            |x: usize| x < now.len() && !now[x as int],
        )) by {
            assert forall|x: usize|
                nodes@.difference(batch_set).contains(x) <==> (x < now.len() && !now[x as int]) by {
                if x < n {
                    assert(now[x as int] == (was_released[x as int] || in_batch[x as int]));
                } else {
                    assert(!nodes@.contains(x));
                }
            }
        }
        assert(edges@.filter(|e: (usize, usize)| !batch_set.contains(e.0)) =~= Set::new(
            |e: (usize, usize)|
                e.0 < now.len() && !now[e.0 as int] && g@.depends(e.0 as int, e.1 as int),
        )) by {
            assert forall|e: (usize, usize)|
                edges@.filter(|e: (usize, usize)| !batch_set.contains(e.0)).contains(e) <==> (e.0
                    < now.len() && !now[e.0 as int] && g@.depends(e.0 as int, e.1 as int)) by {
                if e.0 < n {
                    assert(now[e.0 as int] == (was_released[e.0 as int] || in_batch[e.0 as int]));
                }
            }
        }
        assert forall|p: int, q: int| 0 <= p < q < order.len() implies #[trigger] order[p]
            != #[trigger] order[q] by {
            if p < was_order.len() && q >= was_order.len() {
                assert(was_released[order[p] as int]);
                assert(g@.is_ready(held, order[q] as int));
            }
        }
        assert forall|q: int| 0 <= q < order.len() implies (#[trigger] order[q]) < now.len()
            && now[order[q] as int] by {
            assert(now[order[q] as int] == (was_released[order[q] as int]
                || in_batch[order[q] as int]));
        }
        assert forall|x: int| 0 <= x < now.len() && #[trigger] now[x] implies positions(
            order@,
        ).contains(x) by {
            assert(now[x] == (was_released[x] || in_batch[x]));
            if was_released[x] {
                assert(positions(was_order).contains(x));
                let q = choose|q: int|
                    0 <= q < positions(was_order).len() && positions(was_order)[q] == x;
                assert(positions(order@)[q] == x);
            } else {
                assert(layer.contains(x));
                let q = choose|q: int| 0 <= q < layer.len() && layer[q] == x;
                assert(positions(order@)[was_order.len() + q] == x);
            }
        }
        assert forall|q: int, a: int|
            0 <= q < order.len() && #[trigger] g@.depends(a, order[q] as int) implies exists|j: int|
            0 <= j < q && #[trigger] order[j] == a by {
            if q < was_order.len() {
                assert(g@.depends(a, was_order[q] as int));
                let j = choose|j: int| 0 <= j < q && #[trigger] was_order[j] == a;
                assert(order[j] == a);
            } else {
                assert(g@.is_ready(held, order[q] as int));
                assert(held.contains(a));
                assert(was_released[a]);
                assert(positions(was_order).contains(a));
                let j = choose|j: int|
                    0 <= j < positions(was_order).len() && positions(was_order)[j] == a;
                assert(order[j] == a);
            }
        }
    }
}

/// The list backwards.
fn reversed(v: &Vec<usize>) -> (r: Vec<usize>)
    ensures
        r@ == v@.reverse(),
{
    let mut r: Vec<usize> = Vec::new();
    let mut i: usize = v.len();
    while i > 0
        invariant
            i <= v.len(),
            r.len() == v.len() - i,
            forall|q: int| 0 <= q < r.len() ==> #[trigger] r[q] == v[v.len() - 1 - q],
        decreases i,
    {
        i = i - 1;
        r.push(v[i]);
    }
    assert(r@ =~= v@.reverse());
    r
}

/// What the lists hold when no table is ready any more.
spec fn drained(g: SchemaView, released: Seq<bool>, order: Seq<usize>) -> bool {
    &&& released.len() == g.models.len()
    &&& released.len() <= usize::MAX
    &&& positions(order) == g.release_order()
    &&& forall|i: int, j: int|
        0 <= i < j < order.len() ==> #[trigger] order[i] != #[trigger] order[j]
    &&& forall|i: int|
        0 <= i < order.len() ==> (#[trigger] order[i]) < released.len() && released[order[i] as int]
    &&& forall|x: int|
        0 <= x < released.len() && released[x] ==> #[trigger] positions(order).contains(x)
    &&& forall|i: int, a: int|
        0 <= i < order.len() && #[trigger] g.depends(a, order[i] as int) ==> exists|j: int|
            0 <= j < i && #[trigger] order[j] == a
    &&& held_referenced(g, released)
}

impl Schema {
    /// Releases the tables round by round until none is ready: the marks of
    /// the released tables and the tables in the order of their release.
    fn release_all(&self) -> (out: (Vec<bool>, Vec<usize>))
        ensures
            drained(self@, out.0@, out.1@),
    {
        let n = self.models.len();
        let ghost g = self@;
        let mut sorter = self.dependency_sorter();
        let mut released = no_marks(n);
        let mut order: Vec<usize> = Vec::new();
        let ghost mut rounds: nat = n as nat;
        let ghost mut nodes = sort_nodes(sorter);
        let ghost mut edges = sort_edges(sorter);
        proof {
            assert(nodes =~= Set::new(|x: usize| x < released.len() && !released[x as int]));
            assert(edges =~= Set::new(
                |e: (usize, usize)|
                    e.0 < released.len() && !released[e.0 as int] && g.depends(
                        e.0 as int,
                        e.1 as int,
                    ),
            ));
            assert(marked(released@) =~= Set::<int>::empty());
            assert(positions(order@) + g.release(marked(released@), rounds) =~= g.release_order());
        }
        let mut batch = sorter_pop_all(&mut sorter);
        while batch.len() > 0
            invariant
                n == self.models.len(),
                g == self@,
                draining(g, nodes, edges, released@, order@),
                batch@.to_set() == ready_nodes(nodes, edges),
                sort_nodes(sorter) == nodes.difference(batch@.to_set()),
                sort_edges(sorter) == edges.filter(
                    |e: (usize, usize)| !batch@.to_set().contains(e.0),
                ),
                positions(order@) + g.release(marked(released@), rounds) == g.release_order(),
                order.len() + rounds >= n,
            decreases rounds,
        {
            let ghost was_order = order@;
            let ghost held = marked(released@);
            let ghost layer = g.ready_below(held, n as int);
            proof {
                lemma_batch_is_layer(g, nodes, edges, released@, order@, batch@[0]);
            }
            release_batch(Ghost(g), Ghost(nodes), Ghost(edges), &batch, &mut released, &mut order);
            proof {
                assert(positions(order@).len() == positions(was_order).len() + layer.len());
                assert(order.len() > was_order.len());
                assert(rounds > 0);
                assert(positions(order@) + g.release(marked(released@), (rounds - 1) as nat)
                    =~= positions(was_order) + g.release(held, rounds));
                rounds = (rounds - 1) as nat;
                nodes = sort_nodes(sorter);
                edges = sort_edges(sorter);
            }
            batch = sorter_pop_all(&mut sorter);
        }
        proof {
            lemma_drained(g, nodes, edges, released@, order@, rounds);
        }
        (released, order)
    }

    /// Whether table `x` is held and references no table that is held.
    fn is_loose(&self, gone: &Vec<bool>, x: usize) -> (loose: bool)
        requires
            gone.len() == self.models.len(),
            x < self.models.len(),
        ensures
            loose == self@.is_loose(marked(gone@), x as int),
    {
        if gone[x] {
            return false;
        }
        let ghost g = self@;
        let ghost held = marked(gone@);
        let columns = self.models[x].columns.len();
        let mut k: usize = 0;
        while k < columns
            invariant
                k <= columns,
                x < self.models.len(),
                gone.len() == self.models.len(),
                columns == self.models[x as int].columns.len(),
                g == self@,
                held == marked(gone@),
                forall|kk: int|
                    0 <= kk < k ==> (#[trigger] g.link(x as int, kk) matches Some(b) ==> held.contains(
                        b,
                    )),
            decreases columns - k,
        {
            if let Some(b) = self.link(x, k) {
                if !gone[b] {
                    assert(g.depends(x as int, b as int));
                    assert(!held.contains(b as int));
                    return false;
                }
            }
            k = k + 1;
        }
        proof {
            assert forall|b: int| 0 <= b < g.models.len() && !held.contains(b) implies !#[trigger] g.depends(
                x as int,
                b,
            ) by {
                if g.depends(x as int, b) {
                    let kk = choose|kk: int|
                        0 <= kk < g.models[x as int].columns.len() && #[trigger] g.link(x as int, kk)
                            == Some(b);
                    assert(held.contains(b));
                }
            }
        }
        true
    }

    /// Takes the loose tables away: marks them as gone and lists them.
    /// Says whether there was one.
    fn trim_round(&self, gone: &mut Vec<bool>, list: &mut Vec<usize>) -> (taken: bool)
        requires
            old(gone).len() == self.models.len(),
            listed(old(gone)@, old(list)@),
        ensures
            final(gone).len() == self.models.len(),
            listed(final(gone)@, final(list)@),
            forall|x: int|
                0 <= x < self.models.len() ==> #[trigger] final(gone)[x] == (old(gone)[x]
                    || self@.is_loose(marked(old(gone)@), x)),
            taken <==> exists|x: int| self@.is_loose(marked(old(gone)@), x),
            taken ==> final(list).len() > old(list).len(),
            !taken ==> final(gone)@ == old(gone)@ && final(list)@ == old(list)@,
    {
        let n = self.models.len();
        let ghost g = self@;
        let ghost before = gone@;
        let ghost listed_before = list@;
        let ghost held = marked(gone@);
        let mut loose: Vec<bool> = Vec::new();
        let mut x: usize = 0;
        while x < n
            invariant
                x <= n,
                n == self.models.len(),
                gone.len() == n,
                gone@ == before,
                loose.len() == x,
                g == self@,
                held == marked(before),
                forall|y: int| 0 <= y < x ==> #[trigger] loose[y] == g.is_loose(held, y),
            decreases n - x,
        {
            let found = self.is_loose(gone, x);
            loose.push(found);
            x = x + 1;
        }
        let mut taken = false;
        let mut i: usize = 0;
        while i < n
            invariant
                i <= n,
                n == self.models.len(),
                gone.len() == n,
                loose.len() == n,
                before.len() == n,
                g == self@,
                held == marked(before),
                listed(before, listed_before),
                forall|y: int| 0 <= y < n ==> #[trigger] loose[y] == g.is_loose(held, y),
                forall|y: int| 0 <= y < i ==> #[trigger] gone[y] == (before[y] || loose[y]),
                forall|y: int| i <= y < n ==> #[trigger] gone[y] == before[y],
                list.len() >= listed_before.len(),
                forall|q: int| 0 <= q < listed_before.len() ==> #[trigger] list[q] == listed_before[q],
                forall|q: int|
                    listed_before.len() <= q < list.len() ==> (#[trigger] list[q]) < i
                        && loose[list[q] as int],
                forall|p: int, q: int|
                    listed_before.len() <= p < q < list.len() ==> (#[trigger] list[p]) < (
                    #[trigger] list[q]),
                taken <==> exists|y: int| 0 <= y < i && #[trigger] loose[y],
                taken <==> list.len() > listed_before.len(),
            decreases n - i,
        {
            if loose[i] {
                gone.set(i, true);
                list.push(i);
                taken = true;
            }
            i = i + 1;
        }
        proof {
            assert forall|p: int, q: int| 0 <= p < q < list.len() implies #[trigger] list[p]
                != #[trigger] list[q] by {
                if p < listed_before.len() && q >= listed_before.len() {
                    assert(before[list[p] as int]);
                    assert(loose[list[q] as int]);
                    assert(g.is_loose(held, list[q] as int));
                }
            }
            assert forall|q: int| 0 <= q < list.len() implies (#[trigger] list[q]) < gone.len()
                && gone[list[q] as int] by {
                assert(gone[list[q] as int] == (before[list[q] as int] || loose[list[q] as int]));
            }
            assert forall|y: int| 0 <= y < n implies #[trigger] gone[y] == (before[y] || g.is_loose(
                held,
                y,
            )) by {
                assert(gone[y] == (before[y] || loose[y]));
            }
            if taken {
                let y = choose|y: int| 0 <= y < n && #[trigger] loose[y];
                assert(g.is_loose(held, y));
            } else {
                assert forall|y: int| !g.is_loose(held, y) by {
                    if g.is_loose(held, y) {
                        assert(loose[y]);
                    }
                }
                assert(gone@ =~= before);
                assert(list@ =~= listed_before);
            }
        }
        taken
    }

    /// The tables that references running in a circle keep from being
    /// ordered, where the releases `order`, marked in `released`, leave a
    /// table out.
    fn circle(&self, released: Vec<bool>, order: Vec<usize>) -> (tables: Vec<usize>)
        requires
            released.len() == self.models.len(),
            listed(released@, order@),
            held_referenced(self@, released@),
            some_held(released@),
            self@.release_order().to_set() == marked(released@),
        ensures
            positions(tables@) == self@.circle(),
            self@.is_circular(positions(tables@)),
            forall|i: int| 0 <= i < tables.len() ==> (#[trigger] tables[i]) < self.models.len(),
    {
        let n = self.models.len();
        let ghost g = self@;
        let ghost start = marked(released@);
        let mut gone = released;
        let mut list = order;
        let ghost mut rounds: nat = n as nat;
        let mut more = true;
        while more
            invariant
                n == self.models.len(),
                g == self@,
                gone.len() == n,
                listed(gone@, list@),
                held_referenced(g, gone@),
                some_held(gone@),
                g.trim(marked(gone@), rounds) == g.trim(start, n as nat),
                list.len() + rounds >= n,
                !more ==> forall|x: int| !g.is_loose(marked(gone@), x),
            decreases rounds, (if more {
                1int
            } else {
                0int
            }),
        {
            let ghost before = gone@;
            let ghost listed_before = list@;
            more = self.trim_round(&mut gone, &mut list);
            proof {
                if more {
                    let x = choose|x: int| g.is_loose(marked(before), x);
                    assert(!marked(before).contains(x));
                    lemma_held_has_room(before, listed_before, x);
                    assert(rounds > 0);
                    lemma_round_keeps(g, before, gone@);
                    rounds = (rounds - 1) as nat;
                }
            }
        }
        proof {
            lemma_trim_fixed(g, marked(gone@), rounds);
        }
        let ghost held = marked(gone@);
        let mut tables: Vec<usize> = Vec::new();
        let mut i: usize = 0;
        while i < n
            invariant
                i <= n,
                n == gone.len(),
                held == marked(gone@),
                positions(tables@) == g.held_below(held, i as int),
                forall|q: int| 0 <= q < tables.len() ==> (#[trigger] tables[q]) < n,
            decreases n - i,
        {
            if !gone[i] {
                let ghost before = tables@;
                tables.push(i);
                assert(positions(tables@) =~= positions(before).push(i as int));
            }
            i = i + 1;
        }
        proof {
            lemma_held_circle(g, gone@, positions(tables@));
        }
        tables
    }

    /// The positions of the tables in the order of their merge, or the tables
    /// that references running in a circle keep from being ordered.
    ///
    /// A table is merged after every table that it references. Among the
    /// orders that do so the result is a fixed one: the tables are released
    /// in rounds, each round taking, in ascending order, the tables that no
    /// table still held references, and the merge runs through the releases
    /// backwards. Where tables are never released there is no order, and the
    /// error names those of them that lie on a circle of references or
    /// between two.
    pub fn order(&self) -> (result: Result<Vec<usize>, DependencyCycle>)
        ensures
            match result {
                Ok(order) => positions(order@) == self@.merge_order() && self@.is_merge_order(
                    positions(order@),
                ),
                Err(cycle) => positions(cycle.tables@) == self@.circle() && self@.is_circular(
                    positions(cycle.tables@),
                ) && forall|i: int|
                    0 <= i < cycle.tables.len() ==> (#[trigger] cycle.tables[i]) < self.models.len(),
            },
            result is Ok <==> self@.release_order().len() == self@.models.len(),
            result is Ok <==> exists|order: Seq<int>| self@.is_merge_order(order),
    {
        let ghost g = self@;
        let (released, order) = self.release_all();
        if order.len() == self.models.len() {
            let merged = reversed(&order);
            proof {
                assert(positions(merged@) =~= positions(order@).reverse());
                lemma_complete(g, released@, order@);
            }
            Ok(merged)
        } else {
            proof {
                lemma_incomplete(g, released@, order@);
            }
            let tables = self.circle(released, order);
            proof {
                let named = positions(tables@);
                assert forall|i: int| 0 <= i < named.len() implies 0 <= #[trigger] named[i]
                    < g.models.len() by {
                    assert(tables[i] < self.models.len());
                }
                assert forall|any: Seq<int>| !g.is_merge_order(any) by {
                    lemma_circular_has_no_order(g, named, any);
                }
            }
            Err(DependencyCycle { tables })
        }
    }

    /// The tables in the order of their merge: each after every table that it
    /// references.
    pub fn sorted(&self) -> (result: Result<Vec<&Model>, DependencyCycle>)
        ensures
            match result {
                Ok(models) => {
                    &&& self@.is_merge_order(self@.merge_order())
                    &&& models.len() == self.models.len()
                    &&& forall|i: int|
                        0 <= i < models.len() ==> *#[trigger] models[i]
                            == self.models[self@.merge_order()[i]]
                },
                Err(cycle) => positions(cycle.tables@) == self@.circle() && self@.is_circular(
                    positions(cycle.tables@),
                ),
            },
            result is Ok <==> self@.release_order().len() == self@.models.len(),
            result is Ok <==> exists|order: Seq<int>| self@.is_merge_order(order),
    {
        match self.order() {
            Ok(order) => {
                let mut models: Vec<&Model> = Vec::new();
                let mut i: usize = 0;
                proof {
                    assert forall|q: int| 0 <= q < order.len() implies #[trigger] order[q]
                        < self.models.len() by {
                        assert(0 <= positions(order@)[q] < self.models.len());
                    }
                }
                while i < order.len()
                    invariant
                        i <= order.len(),
                        models.len() == i,
                        order.len() == self.models.len(),
                        forall|q: int| 0 <= q < order.len() ==> #[trigger] order[q] < self.models.len(),
                        forall|q: int|
                            0 <= q < i ==> *#[trigger] models[q] == self.models[order[q] as int],
                    decreases order.len() - i,
                {
                    models.push(&self.models[order[i]]);
                    i = i + 1;
                }
                proof {
                    assert forall|q: int| 0 <= q < models.len() implies *#[trigger] models[q]
                        == self.models[self@.merge_order()[q]] by {
                        assert(positions(order@)[q] == order[q]);
                    }
                }
                Ok(models)
            },
            Err(cycle) => Err(cycle),
        }
    }
}

} // verus!
