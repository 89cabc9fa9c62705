use vstd::prelude::*;

use crate::flatten::{FlatRow, flattened_records, walk, walk_children};
use crate::task::TaskView;
use crate::tree::{BuildError, child_indices, children_of, has_id, parentless, root_choice};

verus! {

/// No two records carry the same id.
pub open spec fn ids_unique(rs: Seq<TaskView>) -> bool {
    forall|a: int, b: int| 0 <= a < b < rs.len() ==> #[trigger] rs[a].id != #[trigger] rs[b].id
}

/// The index of the record that record `j` names as its parent.
pub open spec fn parent_index(rs: Seq<TaskView>, j: int) -> int {
    choose|p: int| 0 <= p < rs.len() && #[trigger] rs[p].id == rs[j].parent->0
}

/// Following parents from record `j` for `d` steps ends at a record without one.
pub open spec fn reaches_root(rs: Seq<TaskView>, j: int, d: nat) -> bool
    decreases d,
{
    &&& 0 <= j < rs.len()
    &&& if d == 0 {
        rs[j].parent is None
    } else {
        &&& rs[j].parent is Some
        &&& has_id(rs, rs[j].parent->0)
        &&& reaches_root(rs, parent_index(rs, j), (d - 1) as nat)
    }
}

/// The record reached from record `j` by following parents for `m` steps.
pub open spec fn ancestor_at(rs: Seq<TaskView>, j: int, m: nat) -> int
    decreases m,
{
    if m == 0 {
        j
    } else {
        ancestor_at(rs, parent_index(rs, j), (m - 1) as nat)
    }
}

/// Record `j`'s chain of parents ends at a record without one in fewer steps
/// than there are records.
pub open spec fn has_depth(rs: Seq<TaskView>, j: int) -> bool {
    exists|d: nat| d < rs.len() && #[trigger] reaches_root(rs, j, d)
}

/// Records that make one tree: ids are unique, and every record's chain of
/// parents ends at a record without one, so that no chain runs in a circle.
pub open spec fn well_formed(rs: Seq<TaskView>) -> bool {
    &&& ids_unique(rs)
    &&& forall|j: int| 0 <= j < rs.len() ==> #[trigger] has_depth(rs, j)
}

/// The task that record `j` gives a row.
pub open spec fn task_of(rs: Seq<TaskView>, j: int) -> TaskView {
    TaskView { parent: None, ..rs[j] }
}

proof fn lemma_depth_unique(rs: Seq<TaskView>, j: int, a: nat, b: nat)
    requires
        reaches_root(rs, j, a),
        reaches_root(rs, j, b),
    ensures
        a == b,
    decreases a,
{
    if a > 0 && b > 0 {
        lemma_depth_unique(rs, parent_index(rs, j), (a - 1) as nat, (b - 1) as nat);
    }
}

proof fn lemma_parent_of_child(rs: Seq<TaskView>, i: int, c: int)
    requires
        ids_unique(rs),
        0 <= i < rs.len(),
        rs[c].parent == Some(rs[i].id),
    ensures
        parent_index(rs, c) == i,
        has_id(rs, rs[c].parent->0),
{
    assert(rs[i].id == rs[c].parent->0);
    let p = parent_index(rs, c);
    assert(0 <= p < rs.len() && rs[p].id == rs[i].id);
    if p < i {
        assert(rs[p].id != rs[i].id);
    } else if i < p {
        assert(rs[i].id != rs[p].id);
    }
}

proof fn lemma_ancestor_step(rs: Seq<TaskView>, j: int, m: nat)
    ensures
        ancestor_at(rs, j, m + 1) == parent_index(rs, ancestor_at(rs, j, m)),
    decreases m,
{
    assert(ancestor_at(rs, j, m + 1) == ancestor_at(rs, parent_index(rs, j), m));
    if m > 0 {
        lemma_ancestor_step(rs, parent_index(rs, j), (m - 1) as nat);
        assert(ancestor_at(rs, j, m) == ancestor_at(rs, parent_index(rs, j), (m - 1) as nat));
    } else {
        assert(ancestor_at(rs, parent_index(rs, j), 0) == parent_index(rs, j));
    }
}

proof fn lemma_ancestor_depth(rs: Seq<TaskView>, j: int, d: nat, t: nat)
    requires
        reaches_root(rs, j, d),
        t <= d,
    ensures
        reaches_root(rs, ancestor_at(rs, j, t), (d - t) as nat),
    decreases t,
{
    if t > 0 {
        lemma_ancestor_depth(rs, parent_index(rs, j), (d - 1) as nat, (t - 1) as nat);
    }
}

proof fn lemma_children_listed(rs: Seq<TaskView>, id: i64, n: int)
    requires
        0 <= n <= rs.len(),
    ensures
        forall|a: int|
            0 <= a < child_indices(rs, id, n).len() ==> 0 <= #[trigger] child_indices(rs, id, n)[a]
                < n && rs[child_indices(rs, id, n)[a]].parent == Some(id),
        forall|a: int, b: int|
            0 <= a < b < child_indices(rs, id, n).len() ==> #[trigger] child_indices(rs, id, n)[a]
                < #[trigger] child_indices(rs, id, n)[b],
        forall|c: int|
            0 <= c < n && rs[c].parent == Some(id) ==> #[trigger] child_indices(rs, id, n).contains(c),
    decreases n,
{
    if n > 0 {
        lemma_children_listed(rs, id, n - 1);
        let before = child_indices(rs, id, n - 1);
        let now = child_indices(rs, id, n);
        assert forall|c: int| 0 <= c < n && rs[c].parent == Some(id) implies #[trigger] now.contains(
            c,
        ) by {
            if c < n - 1 {
                assert(before.contains(c));
                let a = choose|a: int| 0 <= a < before.len() && before[a] == c;
                assert(now[a] == c);
            } else {
                assert(now[now.len() - 1] == c);
            }
        }
    }
}

/// `row` is record `j`'s, at the record's depth, and `top` is the record
/// `row.level - level` steps up its chain of parents.
pub open spec fn row_of_record(rs: Seq<TaskView>, row: FlatRow, j: int, level: nat, top: int) -> bool {
    &&& 0 <= j < rs.len()
    &&& row.task == task_of(rs, j)
    &&& row.level < rs.len()
    &&& reaches_root(rs, j, row.level)
    &&& row.level >= level
    &&& ancestor_at(rs, j, (row.level - level) as nat) == top
}

/// `row` is the row of some record below `top`, which stands at `level`.
pub open spec fn row_below(rs: Seq<TaskView>, row: FlatRow, level: nat, top: int) -> bool {
    exists|j: int| #[trigger] row_of_record(rs, row, j, level, top)
}

proof fn lemma_walk_rows(rs: Seq<TaskView>, i: int, level: nat, last: bool, ancestors: Seq<i64>)
    requires
        ids_unique(rs),
        level < rs.len(),
        reaches_root(rs, i, level),
    ensures
        forall|p: int|
            0 <= p < walk(rs, i, level, last, ancestors).len() ==> row_below(
                rs,
                #[trigger] walk(rs, i, level, last, ancestors)[p],
                level,
                i,
            ),
    decreases rs.len() - level, 0int,
{
    let w = walk(rs, i, level, last, ancestors);
    let cs = children_of(rs, rs[i].id);
    let inner = ancestors.push(rs[i].id);
    assert(row_of_record(rs, w[0], i, level, i));
    if level + 1 < rs.len() {
        let c = walk_children(rs, cs, 0, level + 1, inner);
        lemma_children_rows(rs, i, cs, 0, level + 1, inner);
        assert(w == seq![w[0]] + c);
        assert forall|p: int| 0 <= p < w.len() implies row_below(
            rs,
            #[trigger] w[p],
            level,
            i,
        ) by {
            if p > 0 {
                assert(w[p] == c[p - 1]);
                let m = choose|m: int| 0 <= m < cs.len() && row_below(rs, c[p - 1], level + 1, cs[m]);
                let j = choose|j: int| #[trigger] row_of_record(rs, c[p - 1], j, level + 1, cs[m]);
                let t = (w[p].level - (level + 1)) as nat;
                lemma_children_listed(rs, rs[i].id, rs.len() as int);
                assert(rs[cs[m]].parent == Some(rs[i].id));
                lemma_parent_of_child(rs, i, cs[m]);
                lemma_ancestor_step(rs, j, t);
                assert((w[p].level - level) as nat == t + 1);
                assert(row_of_record(rs, w[p], j, level, i));
            }
        }
    }
}

proof fn lemma_children_rows(
    rs: Seq<TaskView>,
    i: int,
    cs: Seq<int>,
    k: int,
    level: nat,
    ancestors: Seq<i64>,
)
    requires
        ids_unique(rs),
        level >= 1,
        level < rs.len(),
        reaches_root(rs, i, (level - 1) as nat),
        cs == children_of(rs, rs[i].id),
        0 <= k,
    ensures
        forall|p: int|
            0 <= p < walk_children(rs, cs, k, level, ancestors).len() ==> exists|m: int|
                k <= m < cs.len() && row_below(
                    rs,
                    #[trigger] walk_children(rs, cs, k, level, ancestors)[p],
                    level,
                    cs[m],
                ),
    decreases rs.len() - level, cs.len() - k,
{
    if k < cs.len() {
        lemma_children_listed(rs, rs[i].id, rs.len() as int);
        assert(rs[cs[k]].parent == Some(rs[i].id));
        lemma_parent_of_child(rs, i, cs[k]);
        assert(reaches_root(rs, cs[k], level));
        let a = walk(rs, cs[k], level, k + 1 == cs.len(), ancestors);
        let b = walk_children(rs, cs, k + 1, level, ancestors);
        lemma_walk_rows(rs, cs[k], level, k + 1 == cs.len(), ancestors);
        lemma_children_rows(rs, i, cs, k + 1, level, ancestors);
        let c = a + b;
        assert(walk_children(rs, cs, k, level, ancestors) == c);
        assert forall|p: int| 0 <= p < c.len() implies exists|m: int|
            k <= m < cs.len() && row_below(rs, #[trigger] c[p], level, cs[m]) by {
            if p < a.len() {
                assert(c[p] == a[p]);
                assert(row_below(rs, a[p], level, cs[k]));
            } else {
                assert(c[p] == b[p - a.len()]);
                let m = choose|m: int|
                    k + 1 <= m < cs.len() && row_below(rs, b[p - a.len()], level, cs[m]);
                assert(row_below(rs, c[p], level, cs[m]));
            }
        }
    }
}

proof fn lemma_same_id_same_record(rs: Seq<TaskView>, j1: int, j2: int)
    requires
        ids_unique(rs),
        0 <= j1 < rs.len(),
        0 <= j2 < rs.len(),
        rs[j1].id == rs[j2].id,
    ensures
        j1 == j2,
{
    if j1 < j2 {
        assert(rs[j1].id != rs[j2].id);
    } else if j2 < j1 {
        assert(rs[j2].id != rs[j1].id);
    }
}

/// No two rows carry the same id.
pub open spec fn ids_distinct(rows: Seq<FlatRow>) -> bool {
    forall|p: int, q: int|
        0 <= p < q < rows.len() ==> (#[trigger] rows[p]).task.id != (#[trigger] rows[q]).task.id
}

proof fn lemma_walk_distinct(rs: Seq<TaskView>, i: int, level: nat, last: bool, ancestors: Seq<i64>)
    requires
        ids_unique(rs),
        level < rs.len(),
        reaches_root(rs, i, level),
    ensures
        ids_distinct(walk(rs, i, level, last, ancestors)),
    decreases rs.len() - level, 0int,
{
    let w = walk(rs, i, level, last, ancestors);
    let cs = children_of(rs, rs[i].id);
    let inner = ancestors.push(rs[i].id);
    if level + 1 < rs.len() {
        let c = walk_children(rs, cs, 0, level + 1, inner);
        lemma_children_rows(rs, i, cs, 0, level + 1, inner);
        lemma_children_distinct(rs, i, cs, 0, level + 1, inner);
        assert(w == seq![w[0]] + c);
        assert forall|p: int, q: int| 0 <= p < q < w.len() implies (#[trigger] w[p]).task.id != (
        #[trigger] w[q]).task.id by {
            assert(w[q] == c[q - 1]);
            if p == 0 {
                let m = choose|m: int| 0 <= m < cs.len() && row_below(rs, c[q - 1], level + 1, cs[m]);
                let j = choose|j: int| #[trigger] row_of_record(rs, c[q - 1], j, level + 1, cs[m]);
                if w[0].task.id == w[q].task.id {
                    lemma_same_id_same_record(rs, i, j);
                    lemma_depth_unique(rs, i, level, w[q].level);
                }
            } else {
                assert(w[p] == c[p - 1]);
            }
        }
    } else {
        assert(w =~= seq![w[0]]);
    }
}

proof fn lemma_children_distinct(
    rs: Seq<TaskView>,
    i: int,
    cs: Seq<int>,
    k: int,
    level: nat,
    ancestors: Seq<i64>,
)
    requires
        ids_unique(rs),
        level >= 1,
        level < rs.len(),
        reaches_root(rs, i, (level - 1) as nat),
        cs == children_of(rs, rs[i].id),
        0 <= k,
    ensures
        ids_distinct(walk_children(rs, cs, k, level, ancestors)),
    decreases rs.len() - level, cs.len() - k,
{
    if k < cs.len() {
        lemma_children_listed(rs, rs[i].id, rs.len() as int);
        assert(rs[cs[k]].parent == Some(rs[i].id));
        lemma_parent_of_child(rs, i, cs[k]);
        let a = walk(rs, cs[k], level, k + 1 == cs.len(), ancestors);
        let b = walk_children(rs, cs, k + 1, level, ancestors);
        lemma_walk_rows(rs, cs[k], level, k + 1 == cs.len(), ancestors);
        lemma_walk_distinct(rs, cs[k], level, k + 1 == cs.len(), ancestors);
        lemma_children_rows(rs, i, cs, k + 1, level, ancestors);
        lemma_children_distinct(rs, i, cs, k + 1, level, ancestors);
        let c = a + b;
        assert(walk_children(rs, cs, k, level, ancestors) == c);
        assert forall|p: int, q: int| 0 <= p < q < c.len() implies (#[trigger] c[p]).task.id != (
        #[trigger] c[q]).task.id by {
            if q < a.len() {
                assert(c[p] == a[p] && c[q] == a[q]);
            } else if p >= a.len() {
                assert(c[p] == b[p - a.len()] && c[q] == b[q - a.len()]);
            } else {
                assert(c[p] == a[p] && c[q] == b[q - a.len()]);
                if c[p].task.id == c[q].task.id {
                    let j1 = choose|j: int| #[trigger] row_of_record(rs, a[p], j, level, cs[k]);
                    let m = choose|m: int|
                        k + 1 <= m < cs.len() && row_below(rs, b[q - a.len()], level, cs[m]);
                    let j2 = choose|j: int|
                        #[trigger] row_of_record(rs, b[q - a.len()], j, level, cs[m]);
                    lemma_same_id_same_record(rs, j1, j2);
                    lemma_depth_unique(rs, j1, a[p].level, b[q - a.len()].level);
                    assert(cs[k] < cs[m]);
                }
            }
        }
    } else {
        assert(walk_children(rs, cs, k, level, ancestors) =~= Seq::<FlatRow>::empty());
    }
}

/// Some row holds the task `t`.
pub open spec fn holds_task(rows: Seq<FlatRow>, t: TaskView) -> bool {
    exists|p: int| 0 <= p < rows.len() && (#[trigger] rows[p]).task == t
}

proof fn lemma_children_hold(
    rs: Seq<TaskView>,
    cs: Seq<int>,
    k0: int,
    k: int,
    level: nat,
    ancestors: Seq<i64>,
    t: TaskView,
)
    requires
        0 <= k0 <= k < cs.len(),
        holds_task(walk(rs, cs[k], level, k + 1 == cs.len(), ancestors), t),
    ensures
        holds_task(walk_children(rs, cs, k0, level, ancestors), t),
    decreases k - k0,
{
    let a = walk(rs, cs[k0], level, k0 + 1 == cs.len(), ancestors);
    let b = walk_children(rs, cs, k0 + 1, level, ancestors);
    let c = a + b;
    assert(walk_children(rs, cs, k0, level, ancestors) == c);
    if k0 == k {
        let p = choose|p: int| 0 <= p < a.len() && (#[trigger] a[p]).task == t;
        assert(c[p] == a[p]);
    } else {
        lemma_children_hold(rs, cs, k0 + 1, k, level, ancestors, t);
        let p = choose|p: int| 0 <= p < b.len() && (#[trigger] b[p]).task == t;
        assert(c[p + a.len()] == b[p]);
    }
}

proof fn lemma_walk_holds(
    rs: Seq<TaskView>,
    i: int,
    level: nat,
    last: bool,
    ancestors: Seq<i64>,
    j: int,
    m: nat,
)
    requires
        ids_unique(rs),
        reaches_root(rs, i, level),
        reaches_root(rs, j, level + m),
        ancestor_at(rs, j, m) == i,
        level + m < rs.len(),
    ensures
        holds_task(walk(rs, i, level, last, ancestors), task_of(rs, j)),
    decreases m,
{
    let w = walk(rs, i, level, last, ancestors);
    if m == 0 {
        assert(w[0].task == task_of(rs, j));
    } else {
        let c = ancestor_at(rs, j, (m - 1) as nat);
        lemma_ancestor_step(rs, j, (m - 1) as nat);
        lemma_ancestor_depth(rs, j, level + m, (m - 1) as nat);
        assert(reaches_root(rs, c, level + 1));
        assert(rs[c].parent == Some(rs[i].id));
        let cs = children_of(rs, rs[i].id);
        lemma_children_listed(rs, rs[i].id, rs.len() as int);
        assert(cs.contains(c));
        let k = choose|k: int| 0 <= k < cs.len() && cs[k] == c;
        let inner = ancestors.push(rs[i].id);
        lemma_walk_holds(rs, c, level + 1, k + 1 == cs.len(), inner, j, (m - 1) as nat);
        lemma_children_hold(rs, cs, 0, k, level + 1, inner, task_of(rs, j));
        let rest = walk_children(rs, cs, 0, level + 1, inner);
        assert(w == seq![w[0]] + rest);
        let p = choose|p: int| 0 <= p < rest.len() && (#[trigger] rest[p]).task == task_of(rs, j);
        assert(w[p + 1] == rest[p]);
    }
}

proof fn lemma_parentless_members(rs: Seq<TaskView>, n: int)
    requires
        0 <= n <= rs.len(),
    ensures
        forall|a: int|
            0 <= a < parentless(rs, n).len() ==> 0 <= #[trigger] parentless(rs, n)[a] < n
                && rs[parentless(rs, n)[a]].parent is None,
    decreases n,
{
    if n > 0 {
        lemma_parentless_members(rs, n - 1);
    }
}

/// The ids, in input order, of the records among the first `n` whose chain
/// of parents reaches the root.
pub open spec fn reachable_ids(rs: Seq<TaskView>, n: int) -> Seq<i64>
    decreases n,
{
    if n <= 0 {
        seq![]
    } else if has_depth(rs, n - 1) {
        reachable_ids(rs, n - 1).push(rs[n - 1].id)
    } else {
        reachable_ids(rs, n - 1)
    }
}

proof fn lemma_reachable_ids(rs: Seq<TaskView>, n: int)
    requires
        ids_unique(rs),
        0 <= n <= rs.len(),
    ensures
        reachable_ids(rs, n).no_duplicates(),
        forall|x: i64|
            reachable_ids(rs, n).contains(x) <==> exists|j: int|
                0 <= j < n && has_depth(rs, j) && #[trigger] rs[j].id == x,
        reachable_ids(rs, n).len() <= n,
        (forall|j: int| 0 <= j < n ==> #[trigger] has_depth(rs, j)) ==> reachable_ids(rs, n).len()
            == n,
    decreases n,
{
    if n > 0 {
        lemma_reachable_ids(rs, n - 1);
        let before = reachable_ids(rs, n - 1);
        let now = reachable_ids(rs, n);
        assert forall|x: i64| now.contains(x) <==> exists|j: int|
            0 <= j < n && has_depth(rs, j) && #[trigger] rs[j].id == x by {
            if now.contains(x) {
                if before.contains(x) {
                } else {
                    assert(now[now.len() - 1] == x);
                    assert(rs[n - 1].id == x);
                }
            }
            if exists|j: int| 0 <= j < n && has_depth(rs, j) && #[trigger] rs[j].id == x {
                let j = choose|j: int| 0 <= j < n && has_depth(rs, j) && #[trigger] rs[j].id == x;
                if j < n - 1 {
                    assert(before.contains(x));
                    let a = choose|a: int| 0 <= a < before.len() && before[a] == x;
                    assert(now[a] == x);
                } else {
                    assert(now[now.len() - 1] == x);
                }
            }
        }
        if has_depth(rs, n - 1) {
            assert forall|a: int, b: int| 0 <= a < now.len() && 0 <= b < now.len() && a != b
                implies now[a] != now[b] by {
                if a == now.len() - 1 || b == now.len() - 1 {
                    let other = if a == now.len() - 1 { b } else { a };
                    assert(before.contains(now[other]));
                    let j = choose|j: int|
                        0 <= j < n - 1 && has_depth(rs, j) && #[trigger] rs[j].id == now[other];
                    assert(rs[j].id != rs[n - 1].id);
                } else {
                    assert(now[a] == before[a] && now[b] == before[b]);
                }
            }
        }
    }
}

/// Records with unique ids of which exactly one has no parent build into a
/// tree whose rows hold, each exactly once, the records whose chain of parents
/// reaches that root, and nothing else: as many rows as such records.
pub proof fn lemma_build_keeps_reachable_records(rs: Seq<TaskView>)
    requires
        ids_unique(rs),
        parentless(rs, rs.len() as int).len() == 1,
    ensures
        flattened_records(rs) is Ok,
        forall|j: int|
            0 <= j < rs.len() && has_depth(rs, j) ==> holds_task(
                flattened_records(rs)->Ok_0,
                #[trigger] task_of(rs, j),
            ),
        forall|p: int|
            0 <= p < flattened_records(rs)->Ok_0.len() ==> exists|j: int|
                0 <= j < rs.len() && has_depth(rs, j) && (#[trigger] flattened_records(
                    rs,
                )->Ok_0[p]).task == task_of(rs, j),
        ids_distinct(flattened_records(rs)->Ok_0),
        flattened_records(rs)->Ok_0.len() == reachable_ids(rs, rs.len() as int).len(),
{
    let n = rs.len() as int;
    let roots = parentless(rs, n);
    let r = roots[0];
    lemma_parentless_members(rs, n);
    assert(root_choice(rs) == Ok::<int, BuildError>(r));
    assert(reaches_root(rs, r, 0));
    let w = walk(rs, r, 0, true, seq![]);
    assert(flattened_records(rs) == Ok::<Seq<FlatRow>, BuildError>(w));
    assert forall|j: int| 0 <= j < n && has_depth(rs, j) implies holds_task(
        w,
        #[trigger] task_of(rs, j),
    ) by {
        let d = choose|d: nat| d < rs.len() && #[trigger] reaches_root(rs, j, d);
        lemma_ancestor_depth(rs, j, d, d);
        let top = ancestor_at(rs, j, d);
        assert(reaches_root(rs, top, 0));
        crate::tree::lemma_parentless_holds(rs, n, top);
        assert(top == r);
        lemma_walk_holds(rs, r, 0, true, seq![], j, d);
    }
    lemma_walk_rows(rs, r, 0, true, seq![]);
    assert forall|p: int| 0 <= p < w.len() implies exists|j: int|
        0 <= j < rs.len() && has_depth(rs, j) && (#[trigger] w[p]).task == task_of(rs, j) by {
        let j = choose|j: int| #[trigger] row_of_record(rs, w[p], j, 0, r);
        assert(reaches_root(rs, j, w[p].level));
        assert(has_depth(rs, j));
    }
    lemma_walk_distinct(rs, r, 0, true, seq![]);
    let row_ids = w.map_values(|x: FlatRow| x.task.id);
    let record_ids = reachable_ids(rs, n);
    lemma_reachable_ids(rs, n);
    assert(row_ids.no_duplicates()) by {
        assert forall|a: int, b: int| 0 <= a < row_ids.len() && 0 <= b < row_ids.len() && a != b
            implies row_ids[a] != row_ids[b] by {
            if a < b {
                assert(w[a].task.id != w[b].task.id);
            } else {
                assert(w[b].task.id != w[a].task.id);
            }
        }
    }
    assert(row_ids.to_set() =~= record_ids.to_set()) by {
        assert forall|x: i64| row_ids.to_set().contains(x) implies record_ids.to_set().contains(
            x,
        ) by {
            let p = choose|p: int| 0 <= p < row_ids.len() && row_ids[p] == x;
            let j = choose|j: int|
                0 <= j < rs.len() && has_depth(rs, j) && (#[trigger] w[p]).task == task_of(rs, j);
            assert(rs[j].id == x);
        }
        assert forall|x: i64| record_ids.to_set().contains(x) implies row_ids.to_set().contains(
            x,
        ) by {
            assert(record_ids.contains(x));
            let j = choose|j: int| 0 <= j < n && has_depth(rs, j) && #[trigger] rs[j].id == x;
            assert(holds_task(w, task_of(rs, j)));
            let p = choose|p: int| 0 <= p < w.len() && (#[trigger] w[p]).task == task_of(rs, j);
            assert(row_ids[p] == x);
        }
    }
    row_ids.unique_seq_to_set();
    record_ids.unique_seq_to_set();
}

/// Well-formed records of which exactly one has no parent build into a tree
/// whose rows hold each record exactly once: every record has its row, every
/// row is a record's, no id comes twice, and there are as many rows as records.
pub proof fn lemma_build_keeps_every_record(rs: Seq<TaskView>)
    requires
        well_formed(rs),
        parentless(rs, rs.len() as int).len() == 1,
    ensures
        flattened_records(rs) is Ok,
        forall|j: int|
            0 <= j < rs.len() ==> holds_task(flattened_records(rs)->Ok_0, #[trigger] task_of(rs, j)),
        forall|p: int|
            0 <= p < flattened_records(rs)->Ok_0.len() ==> exists|j: int|
                0 <= j < rs.len() && (#[trigger] flattened_records(rs)->Ok_0[p]).task == task_of(
                    rs,
                    j,
                ),
        ids_distinct(flattened_records(rs)->Ok_0),
        flattened_records(rs)->Ok_0.len() == rs.len(),
{
    lemma_build_keeps_reachable_records(rs);
    lemma_reachable_ids(rs, rs.len() as int);
    let rows = flattened_records(rs)->Ok_0;
    assert forall|j: int| 0 <= j < rs.len() implies holds_task(rows, #[trigger] task_of(rs, j)) by {
        assert(has_depth(rs, j));
    }
    assert forall|p: int| 0 <= p < rows.len() implies exists|j: int|
        0 <= j < rs.len() && (#[trigger] rows[p]).task == task_of(rs, j) by {
        let j = choose|j: int|
            0 <= j < rs.len() && has_depth(rs, j) && (#[trigger] rows[p]).task == task_of(rs, j);
    }
}

} // verus!
