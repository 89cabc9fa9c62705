use vstd::prelude::*;

use crate::task::{Task, TaskView, task_views};
use crate::tree::{BuildError, TaskTree, children_of, grown_children, is_subtree_of, root_choice};

verus! {

broadcast use vstd::std_specs::vec::group_vec_axioms;

/// One row of a flattened tree: the task, how deep it stands, whether it is
/// the last of its siblings, and the ids of its ancestors from the root down.
pub struct FlatTaskTreeElement {
    pub level: usize,
    pub last_under_parent: bool,
    pub task: Task,
    pub parent_ids: Vec<i64>,
}

/// What a row holds, as plain values.
pub struct FlatRow {
    pub level: nat,
    pub last_under_parent: bool,
    pub task: TaskView,
    pub parent_ids: Seq<i64>,
}

impl View for FlatTaskTreeElement {
    type V = FlatRow;

    open spec fn view(&self) -> FlatRow {
        FlatRow {
            level: self.level as nat,
            last_under_parent: self.last_under_parent,
            task: self.task@,
            parent_ids: self.parent_ids@,
        }
    }
}

/// The views of a sequence of rows.
pub open spec fn row_views(rows: Seq<FlatTaskTreeElement>) -> Seq<FlatRow> {
    rows.map_values(|e: FlatTaskTreeElement| e@)
}

/// The row of the node `t` itself. The task's parent is left out: the
/// ancestors say where it stands.
pub open spec fn node_row(t: TaskTree, last: bool, ancestors: Seq<i64>) -> FlatRow {
    FlatRow {
        level: t.level as nat,
        last_under_parent: last,
        task: TaskView { id: t.id, description: t.description@, complete: t.complete, parent: None },
        parent_ids: ancestors,
    }
}

/// The rows of `t` in pre-order: the node, then its children's rows in turn.
pub open spec fn flat_tree(t: TaskTree, last: bool, ancestors: Seq<i64>) -> Seq<FlatRow>
    decreases t, 0int,
{
    seq![node_row(t, last, ancestors)] + flat_forest(t.children@, 0, ancestors.push(t.id))
}

/// The rows of the trees `ts[k..]`, each marked last where it is the last of `ts`.
pub open spec fn flat_forest(ts: Seq<TaskTree>, k: int, ancestors: Seq<i64>) -> Seq<FlatRow>
    decreases ts, ts.len() - k,
{
    if 0 <= k < ts.len() {
        flat_tree(ts[k], k + 1 == ts.len(), ancestors) + flat_forest(ts, k + 1, ancestors)
    } else {
        seq![]
    }
}

/// The rows of a whole tree, whose root counts as last.
pub open spec fn flattened(t: TaskTree) -> Seq<FlatRow> {
    flat_tree(t, true, seq![])
}

impl FlatTaskTreeElement {
    /// The ids from the root down to this row's task, which, joined with
    /// dots, number the row (`2.3.1`).
    pub fn number_path(&self) -> (r: Vec<i64>)
        ensures
            r@ == self.parent_ids@.push(self.task.id),
    {
        let mut r = clone_ids(&self.parent_ids);
        r.push(self.task.id);
        r
    }
}

fn clone_ids(v: &Vec<i64>) -> (r: Vec<i64>)
    ensures
        r@ == v@,
{
    let mut r: Vec<i64> = Vec::new();
    let mut j: usize = 0;
    while j < v.len()
        invariant
            j <= v.len(),
            r@ == v@.subrange(0, j as int),
        decreases v.len() - j,
    {
        r.push(v[j]);
        j += 1;
        assert(r@ == v@.subrange(0, j as int));
    }
    r
}

fn push_tree(
    t: &TaskTree,
    last: bool,
    ancestors: &Vec<i64>,
    out: &mut Vec<FlatTaskTreeElement>,
)
    ensures
        row_views(final(out)@) == row_views(old(out)@) + flat_tree(*t, last, ancestors@),
    decreases t, 0int,
{
    let ghost before = row_views(out@);
    let row = FlatTaskTreeElement {
        level: t.level,
        last_under_parent: last,
        task: Task {
            id: t.id,
            description: t.description.clone(),
            complete: t.complete,
            parent: None,
        },
        parent_ids: clone_ids(ancestors),
    };
    out.push(row);
    assert(row_views(out@) == before + seq![node_row(*t, last, ancestors@)]);
    let mut inner = clone_ids(ancestors);
    inner.push(t.id);
    let ghost mid = row_views(out@);
    push_forest(&t.children, 0, &inner, out);
    assert(row_views(out@) == mid + flat_forest(t.children@, 0, inner@));
}

fn push_forest(
    ts: &Vec<TaskTree>,
    k: usize,
    ancestors: &Vec<i64>,
    out: &mut Vec<FlatTaskTreeElement>,
)
    requires
        k <= ts.len(),
    ensures
        row_views(final(out)@) == row_views(old(out)@) + flat_forest(ts@, k as int, ancestors@),
    decreases ts@, ts@.len() - k,
{
    if k < ts.len() {
        let ghost before = row_views(out@);
        push_tree(&ts[k], k + 1 == ts.len(), ancestors, out);
        let ghost mid = row_views(out@);
        push_forest(ts, k + 1, ancestors, out);
        assert(row_views(out@) == before + flat_forest(ts@, k as int, ancestors@));
    } else {
        assert(row_views(out@) == row_views(out@) + Seq::<FlatRow>::empty());
    }
}

impl TaskTree {
    /// The tree's rows in pre-order, each with its level, whether it is the
    /// last of its siblings (the root is), and the ids of its ancestors.
    pub fn flatten(&self) -> (r: Vec<FlatTaskTreeElement>)
        ensures
            row_views(r@) == flattened(*self),
    {
        let mut out: Vec<FlatTaskTreeElement> = Vec::new();
        let none: Vec<i64> = Vec::new();
        push_tree(self, true, &none, &mut out);
        assert(row_views(out@) =~= Seq::<FlatRow>::empty() + flattened(*self));
        out
    }
}

/// The row of record `i` at `level`.
pub open spec fn record_row(
    rs: Seq<TaskView>,
    i: int,
    level: nat,
    last: bool,
    ancestors: Seq<i64>,
) -> FlatRow {
    FlatRow {
        level,
        last_under_parent: last,
        task: TaskView { parent: None, ..rs[i] },
        parent_ids: ancestors,
    }
}

/// The rows of a pre-order walk of the records from record `i` at `level`:
/// its own row, then the walk from each of its children in the order in which
/// they come, the last child marked last.
pub open spec fn walk(
    rs: Seq<TaskView>,
    i: int,
    level: nat,
    last: bool,
    ancestors: Seq<i64>,
) -> Seq<FlatRow>
    decreases rs.len() - level, 0int,
{
    seq![record_row(rs, i, level, last, ancestors)] + if level + 1 < rs.len() {
        walk_children(rs, children_of(rs, rs[i].id), 0, level + 1, ancestors.push(rs[i].id))
    } else {
        seq![]
    }
}

/// The walks from the records `cs[k..]`, each at `level`.
pub open spec fn walk_children(
    rs: Seq<TaskView>,
    cs: Seq<int>,
    k: int,
    level: nat,
    ancestors: Seq<i64>,
) -> Seq<FlatRow>
    decreases rs.len() - level, cs.len() - k,
{
    if 0 <= k < cs.len() {
        walk(rs, cs[k], level, k + 1 == cs.len(), ancestors) + walk_children(
            rs,
            cs,
            k + 1,
            level,
            ancestors,
        )
    } else {
        seq![]
    }
}

/// The rows of a subtree are those of the walk over the records it grew from.
proof fn lemma_subtree_rows(
    t: TaskTree,
    rs: Seq<TaskView>,
    i: int,
    level: nat,
    last: bool,
    ancestors: Seq<i64>,
)
    requires
        is_subtree_of(t, rs, i, level),
    ensures
        flat_tree(t, last, ancestors) == walk(rs, i, level, last, ancestors),
    decreases rs.len() - level, 0int,
{
    assert(node_row(t, last, ancestors) == record_row(rs, i, level, last, ancestors));
    if level + 1 < rs.len() {
        lemma_forest_rows(
            t.children@,
            rs,
            grown_children(rs, i, level),
            0,
            level + 1,
            ancestors.push(t.id),
        );
    } else {
        assert(t.children@.len() == 0);
        assert(flat_forest(t.children@, 0, ancestors.push(t.id)) =~= Seq::<FlatRow>::empty());
    }
}

/// The rows of subtrees grown from the records `cs` are those of their walks.
proof fn lemma_forest_rows(
    ts: Seq<TaskTree>,
    rs: Seq<TaskView>,
    cs: Seq<int>,
    k: int,
    level: nat,
    ancestors: Seq<i64>,
)
    requires
        ts.len() == cs.len(),
        0 <= k <= cs.len(),
        forall|m: int| 0 <= m < cs.len() ==> is_subtree_of(#[trigger] ts[m], rs, cs[m], level),
    ensures
        flat_forest(ts, k, ancestors) == walk_children(rs, cs, k, level, ancestors),
    decreases rs.len() - level, cs.len() - k,
{
    if k < cs.len() {
        lemma_subtree_rows(ts[k], rs, cs[k], level, k + 1 == cs.len(), ancestors);
        lemma_forest_rows(ts, rs, cs, k + 1, level, ancestors);
    }
}

/// The rows of the tree that the records describe, or why there is none.
pub open spec fn flattened_records(rs: Seq<TaskView>) -> Result<Seq<FlatRow>, BuildError> {
    match root_choice(rs) {
        Ok(i) => Ok(walk(rs, i, 0, true, seq![])),
        Err(e) => Err(e),
    }
}

/// Builds the tree that the records describe and flattens it.
pub fn try_to_flat_task_tree_element(tasks: &Vec<Task>) -> (r: Result<
    Vec<FlatTaskTreeElement>,
    BuildError,
>)
    ensures
        match flattened_records(task_views(tasks@)) {
            Ok(rows) => r is Ok && row_views(r->Ok_0@) == rows,
            Err(e) => r is Err && r->Err_0 == e,
        },
{
    match TaskTree::build(tasks) {
        Ok(tree) => {
            let rows = tree.flatten();
            proof {
                let rs = task_views(tasks@);
                lemma_subtree_rows(tree, rs, root_choice(rs)->Ok_0, 0, true, seq![]);
            }
            Ok(rows)
        },
        Err(e) => Err(e),
    }
}

/// Flattening only reads the tree, so flattening the same tree again gives
/// the same rows.
pub proof fn lemma_flatten_repeats(t: TaskTree, first: Seq<FlatRow>, second: Seq<FlatRow>)
    requires
        first == flattened(t),
        second == flattened(t),
    ensures
        first == second,
{
}

/// Whether `a` is where `b` begins.
pub open spec fn is_prefix_of(a: Seq<i64>, b: Seq<i64>) -> bool {
    a.len() <= b.len() && b.subrange(0, a.len() as int) == a
}

/// Rows in the shape of a pre-order walk: each row's level is the number of
/// its ancestors, and the ancestors of each next row begin those of the row
/// before it together with that row, so that a row one level deeper than the
/// one before it is that row's child.
pub open spec fn preorder_shaped(rows: Seq<FlatRow>) -> bool {
    &&& forall|p: int| 0 <= p < rows.len() ==> (#[trigger] rows[p]).level == rows[p].parent_ids.len()
    &&& forall|p: int|
        0 <= p < rows.len() - 1 ==> is_prefix_of(
            (#[trigger] rows[p + 1]).parent_ids,
            rows[p].parent_ids.push(rows[p].task.id),
        )
}

proof fn lemma_prefix_push(a: Seq<i64>, b: Seq<i64>, x: i64)
    requires
        is_prefix_of(a, b),
    ensures
        is_prefix_of(a, b.push(x)),
{
    assert(b.push(x).subrange(0, a.len() as int) =~= b.subrange(0, a.len() as int));
}

proof fn lemma_prefix_trans(a: Seq<i64>, b: Seq<i64>, c: Seq<i64>)
    requires
        is_prefix_of(a, b),
        is_prefix_of(b, c),
    ensures
        is_prefix_of(a, c),
{
    assert(c.subrange(0, a.len() as int) =~= c.subrange(0, b.len() as int).subrange(
        0,
        a.len() as int,
    ));
}

/// What holds of the rows of a walk below `ancestors` at `level`.
pub open spec fn walk_shape(w: Seq<FlatRow>, level: nat, ancestors: Seq<i64>) -> bool {
    &&& preorder_shaped(w)
    &&& forall|p: int| 0 <= p < w.len() ==> is_prefix_of(ancestors, (#[trigger] w[p]).parent_ids)
    &&& w.len() > 0 ==> w[0].parent_ids == ancestors
}

proof fn lemma_join_shapes(a: Seq<FlatRow>, b: Seq<FlatRow>, ancestors: Seq<i64>)
    requires
        a.len() > 0,
        walk_shape(a, ancestors.len(), ancestors),
        preorder_shaped(b),
        forall|p: int| 0 <= p < b.len() ==> is_prefix_of(ancestors, (#[trigger] b[p]).parent_ids),
        b.len() > 0 ==> is_prefix_of(
            b[0].parent_ids,
            a[a.len() - 1].parent_ids.push(a[a.len() - 1].task.id),
        ),
    ensures
        walk_shape(a + b, ancestors.len(), ancestors),
{
    let w = a + b;
    assert forall|p: int| 0 <= p < w.len() implies (#[trigger] w[p]).level
        == w[p].parent_ids.len() by {
        if p < a.len() {
            assert(w[p] == a[p]);
        } else {
            assert(w[p] == b[p - a.len()]);
        }
    }
    assert forall|p: int| 0 <= p < w.len() - 1 implies is_prefix_of(
        (#[trigger] w[p + 1]).parent_ids,
        w[p].parent_ids.push(w[p].task.id),
    ) by {
        if p + 1 < a.len() {
            assert(w[p] == a[p] && w[p + 1] == a[p + 1]);
        } else if p + 1 == a.len() {
            assert(w[p] == a[p] && w[p + 1] == b[0]);
        } else {
            assert(w[p] == b[p - a.len()] && w[p + 1] == b[p - a.len() + 1]);
        }
    }
    assert forall|p: int| 0 <= p < w.len() implies is_prefix_of(
        ancestors,
        (#[trigger] w[p]).parent_ids,
    ) by {
        if p < a.len() {
            assert(w[p] == a[p]);
        } else {
            assert(w[p] == b[p - a.len()]);
        }
    }
    assert(w[0] == a[0]);
}

/// The rows of a walk are in the shape of a pre-order walk.
proof fn lemma_walk_shape(
    rs: Seq<TaskView>,
    i: int,
    level: nat,
    last: bool,
    ancestors: Seq<i64>,
)
    requires
        ancestors.len() == level,
    ensures
        walk_shape(walk(rs, i, level, last, ancestors), level, ancestors),
        walk(rs, i, level, last, ancestors).len() > 0,
    decreases rs.len() - level, 0int,
{
    let head = seq![record_row(rs, i, level, last, ancestors)];
    let inner = ancestors.push(rs[i].id);
    let rest = if level + 1 < rs.len() {
        walk_children(rs, children_of(rs, rs[i].id), 0, level + 1, inner)
    } else {
        seq![]
    };
    if level + 1 < rs.len() {
        lemma_children_shape(rs, children_of(rs, rs[i].id), 0, level + 1, inner);
    }
    assert(is_prefix_of(ancestors, ancestors)) by {
        assert(ancestors.subrange(0, ancestors.len() as int) =~= ancestors);
    }
    assert(is_prefix_of(ancestors, inner)) by {
        assert(inner.subrange(0, ancestors.len() as int) =~= ancestors);
    }
    assert forall|p: int| 0 <= p < rest.len() implies is_prefix_of(
        ancestors,
        (#[trigger] rest[p]).parent_ids,
    ) by {
        lemma_prefix_trans(ancestors, inner, rest[p].parent_ids);
    }
    if rest.len() > 0 {
        assert(rest[0].parent_ids == inner);
        assert(is_prefix_of(inner, inner)) by {
            assert(inner.subrange(0, inner.len() as int) =~= inner);
        }
    }
    lemma_join_shapes(head, rest, ancestors);
    assert(walk(rs, i, level, last, ancestors) == head + rest);
}

/// The rows of walks from siblings are in the shape of a pre-order walk.
proof fn lemma_children_shape(
    rs: Seq<TaskView>,
    cs: Seq<int>,
    k: int,
    level: nat,
    ancestors: Seq<i64>,
)
    requires
        ancestors.len() == level,
        0 <= k,
    ensures
        walk_shape(walk_children(rs, cs, k, level, ancestors), level, ancestors),
    decreases rs.len() - level, cs.len() - k,
{
    if k < cs.len() {
        let a = walk(rs, cs[k], level, k + 1 == cs.len(), ancestors);
        let b = walk_children(rs, cs, k + 1, level, ancestors);
        lemma_walk_shape(rs, cs[k], level, k + 1 == cs.len(), ancestors);
        lemma_children_shape(rs, cs, k + 1, level, ancestors);
        if b.len() > 0 {
            let z = a[a.len() - 1];
            assert(is_prefix_of(ancestors, z.parent_ids));
            lemma_prefix_push(ancestors, z.parent_ids, z.task.id);
            assert(b[0].parent_ids == ancestors);
        }
        lemma_join_shapes(a, b, ancestors);
    } else {
        assert(walk_children(rs, cs, k, level, ancestors) =~= Seq::<FlatRow>::empty());
    }
}

/// Building and then flattening walks the records from the root in
/// pre-order; every row's level is the number of its ancestors, and a row one
/// level deeper than the row before it is that row's first child, its
/// ancestors being that row's ancestors and that row.
pub proof fn lemma_build_then_flatten_is_preorder(rs: Seq<TaskView>)
    requires
        root_choice(rs) is Ok,
    ensures
        flattened_records(rs) == Ok::<Seq<FlatRow>, BuildError>(
            walk(rs, root_choice(rs)->Ok_0, 0, true, seq![]),
        ),
        preorder_shaped(flattened_records(rs)->Ok_0),
        flattened_records(rs)->Ok_0[0].level == 0,
        forall|p: int|
            0 <= p < flattened_records(rs)->Ok_0.len() - 1 && (#[trigger] flattened_records(
                rs,
            )->Ok_0[p + 1]).level > flattened_records(rs)->Ok_0[p].level ==> {
                let rows = flattened_records(rs)->Ok_0;
                &&& rows[p + 1].level == rows[p].level + 1
                &&& rows[p + 1].parent_ids == rows[p].parent_ids.push(rows[p].task.id)
            },
{
    let rows = walk(rs, root_choice(rs)->Ok_0, 0, true, seq![]);
    lemma_walk_shape(rs, root_choice(rs)->Ok_0, 0, true, seq![]);
    assert forall|p: int|
        0 <= p < rows.len() - 1 && (#[trigger] rows[p + 1]).level > rows[p].level implies {
        &&& rows[p + 1].level == rows[p].level + 1
        &&& rows[p + 1].parent_ids == rows[p].parent_ids.push(rows[p].task.id)
    } by {
        let x = rows[p + 1].parent_ids;
        let y = rows[p].parent_ids.push(rows[p].task.id);
        assert(is_prefix_of(x, y));
        assert(rows[p].level == rows[p].parent_ids.len());
        assert(rows[p + 1].level == x.len());
        assert(x =~= y);
    }
}

/// Whether a later row stands at the same level as row `p` before any row
/// at a shallower level: a later sibling of `p`.
pub open spec fn has_later_sibling(rows: Seq<FlatRow>, p: int) -> bool {
    exists|q: int|
        p < q < rows.len() && (#[trigger] rows[q]).level == rows[p].level && forall|r: int|
            p < r < q ==> (#[trigger] rows[r]).level > rows[p].level
}

proof fn lemma_sibling_in_suffix(x: Seq<FlatRow>, y: Seq<FlatRow>, p: int)
    requires
        x.len() <= p < x.len() + y.len(),
    ensures
        has_later_sibling(x + y, p) == has_later_sibling(y, p - x.len()),
{
    let w = x + y;
    let n = x.len() as int;
    if has_later_sibling(w, p) {
        let q = choose|q: int|
            p < q < w.len() && (#[trigger] w[q]).level == w[p].level && forall|r: int|
                p < r < q ==> (#[trigger] w[r]).level > w[p].level;
        assert(y[q - n] == w[q] && y[p - n] == w[p]);
        assert forall|r: int| p - n < r < q - n implies (#[trigger] y[r]).level > y[p - n].level by {
            assert(w[r + n] == y[r]);
        }
        assert(has_later_sibling(y, p - n));
    }
    if has_later_sibling(y, p - n) {
        let q = choose|q: int|
            p - n < q < y.len() && (#[trigger] y[q]).level == y[p - n].level && forall|r: int|
                p - n < r < q ==> (#[trigger] y[r]).level > y[p - n].level;
        assert(w[q + n] == y[q] && w[p] == y[p - n]);
        assert forall|r: int| p < r < q + n implies (#[trigger] w[r]).level > w[p].level by {
            assert(w[r] == y[r - n]);
        }
        assert(has_later_sibling(w, p));
    }
}

proof fn lemma_sibling_in_prefix(a: Seq<FlatRow>, b: Seq<FlatRow>, p: int)
    requires
        0 <= p < a.len(),
        b.len() > 0 ==> b[0].level < a[p].level,
    ensures
        has_later_sibling(a + b, p) == has_later_sibling(a, p),
{
    let w = a + b;
    if has_later_sibling(w, p) {
        let q = choose|q: int|
            p < q < w.len() && (#[trigger] w[q]).level == w[p].level && forall|r: int|
                p < r < q ==> (#[trigger] w[r]).level > w[p].level;
        if q >= a.len() {
            assert(w[a.len() as int] == b[0]);
            if q > a.len() {
                assert(w[a.len() as int].level > w[p].level);
            }
        }
        assert(a[q] == w[q] && a[p] == w[p]);
        assert forall|r: int| p < r < q implies (#[trigger] a[r]).level > a[p].level by {
            assert(w[r] == a[r]);
        }
        assert(has_later_sibling(a, p));
    }
    if has_later_sibling(a, p) {
        let q = choose|q: int|
            p < q < a.len() && (#[trigger] a[q]).level == a[p].level && forall|r: int|
                p < r < q ==> (#[trigger] a[r]).level > a[p].level;
        assert(w[q] == a[q] && w[p] == a[p]);
        assert forall|r: int| p < r < q implies (#[trigger] w[r]).level > w[p].level by {
            assert(w[r] == a[r]);
        }
        assert(has_later_sibling(w, p));
    }
}

/// What holds of the last-sibling marks in a walk from a record at `level`.
pub open spec fn walk_marks(w: Seq<FlatRow>, level: nat, last: bool) -> bool {
    &&& w.len() > 0
    &&& w[0].level == level
    &&& w[0].last_under_parent == last
    &&& forall|p: int| 1 <= p < w.len() ==> (#[trigger] w[p]).level > level
    &&& forall|p: int|
        1 <= p < w.len() ==> ((#[trigger] w[p]).last_under_parent <==> !has_later_sibling(w, p))
}

/// What holds of the last-sibling marks in the walks from siblings at `level`.
pub open spec fn children_marks(c: Seq<FlatRow>, level: nat) -> bool {
    &&& forall|p: int| 0 <= p < c.len() ==> (#[trigger] c[p]).level >= level
    &&& forall|p: int|
        0 <= p < c.len() ==> ((#[trigger] c[p]).last_under_parent <==> !has_later_sibling(c, p))
}

proof fn lemma_walk_marks(rs: Seq<TaskView>, i: int, level: nat, last: bool, ancestors: Seq<i64>)
    ensures
        walk_marks(walk(rs, i, level, last, ancestors), level, last),
    decreases rs.len() - level, 0int,
{
    let head = seq![record_row(rs, i, level, last, ancestors)];
    let rest = if level + 1 < rs.len() {
        walk_children(rs, children_of(rs, rs[i].id), 0, level + 1, ancestors.push(rs[i].id))
    } else {
        seq![]
    };
    if level + 1 < rs.len() {
        lemma_children_marks(rs, children_of(rs, rs[i].id), 0, level + 1, ancestors.push(rs[i].id));
    }
    let w = head + rest;
    assert(walk(rs, i, level, last, ancestors) == w);
    assert forall|p: int| 1 <= p < w.len() implies (#[trigger] w[p]).level > level by {
        assert(w[p] == rest[p - 1]);
    }
    assert forall|p: int| 1 <= p < w.len() implies ((#[trigger] w[p]).last_under_parent
        <==> !has_later_sibling(w, p)) by {
        assert(w[p] == rest[p - 1]);
        lemma_sibling_in_suffix(head, rest, p);
    }
}

proof fn lemma_children_marks(
    rs: Seq<TaskView>,
    cs: Seq<int>,
    k: int,
    level: nat,
    ancestors: Seq<i64>,
)
    requires
        0 <= k,
    ensures
        children_marks(walk_children(rs, cs, k, level, ancestors), level),
    decreases rs.len() - level, cs.len() - k,
{
    if k < cs.len() {
        let a = walk(rs, cs[k], level, k + 1 == cs.len(), ancestors);
        let b = walk_children(rs, cs, k + 1, level, ancestors);
        lemma_walk_marks(rs, cs[k], level, k + 1 == cs.len(), ancestors);
        lemma_children_marks(rs, cs, k + 1, level, ancestors);
        let c = a + b;
        assert(walk_children(rs, cs, k, level, ancestors) == c);
        if k + 1 < cs.len() {
            let first = walk(rs, cs[k + 1], level, k + 2 == cs.len(), ancestors);
            lemma_walk_marks(rs, cs[k + 1], level, k + 2 == cs.len(), ancestors);
            assert(b == first + walk_children(rs, cs, k + 2, level, ancestors));
            assert(b[0] == first[0]);
        } else {
            assert(b =~= Seq::<FlatRow>::empty());
        }
        assert forall|p: int| 0 <= p < c.len() implies (#[trigger] c[p]).level >= level by {
            if p < a.len() {
                assert(c[p] == a[p]);
            } else {
                assert(c[p] == b[p - a.len()]);
            }
        }
        assert forall|p: int| 0 <= p < c.len() implies ((#[trigger] c[p]).last_under_parent
            <==> !has_later_sibling(c, p)) by {
            if p == 0 {
                assert(c[0] == a[0]);
                if b.len() > 0 {
                    let q = a.len() as int;
                    assert(c[q] == b[0]);
                    assert forall|r: int| 0 < r < q implies (#[trigger] c[r]).level > c[0].level by {
                        assert(c[r] == a[r]);
                    }
                    assert(has_later_sibling(c, 0));
                } else {
                    assert(c =~= a);
                    if has_later_sibling(c, 0) {
                        let q = choose|q: int|
                            0 < q < c.len() && (#[trigger] c[q]).level == c[0].level && forall|
                                r: int,
                            | 0 < r < q ==> (#[trigger] c[r]).level > c[0].level;
                        assert(c[q] == a[q]);
                    }
                }
            } else if p < a.len() {
                assert(c[p] == a[p]);
                lemma_sibling_in_prefix(a, b, p);
            } else {
                assert(c[p] == b[p - a.len()]);
                lemma_sibling_in_suffix(a, b, p);
            }
        }
    } else {
        assert(walk_children(rs, cs, k, level, ancestors) =~= Seq::<FlatRow>::empty());
    }
}

/// In the rows that building and flattening give, a row is marked as the last
/// of its siblings exactly when no later sibling follows it, so that in each
/// group of siblings only the last is marked; the root is marked.
pub proof fn lemma_last_sibling_marks(rs: Seq<TaskView>)
    requires
        root_choice(rs) is Ok,
    ensures
        flattened_records(rs)->Ok_0[0].last_under_parent,
        forall|p: int|
            0 <= p < flattened_records(rs)->Ok_0.len() ==> ((#[trigger] flattened_records(
                rs,
            )->Ok_0[p]).last_under_parent <==> !has_later_sibling(flattened_records(rs)->Ok_0, p)),
{
    let w = walk(rs, root_choice(rs)->Ok_0, 0, true, seq![]);
    lemma_walk_marks(rs, root_choice(rs)->Ok_0, 0, true, seq![]);
    if has_later_sibling(w, 0) {
        let q = choose|q: int|
            0 < q < w.len() && (#[trigger] w[q]).level == w[0].level && forall|r: int|
                0 < r < q ==> (#[trigger] w[r]).level > w[0].level;
    }
}

} // verus!
