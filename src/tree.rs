use vstd::prelude::*;

use crate::task::{Task, TaskView, task_views};

verus! {

/// Why a set of records cannot be made into a tree.
#[derive(Debug, Clone, Copy, PartialEq, Eq, Structural)]
pub enum BuildError {
    /// More than one record has no parent.
    MultipleRoots,
    /// No record has no parent, and none names a parent that is missing.
    NoRootFound,
}

/// A task together with the subtrees of its children, in the order in which
/// the children came in the records. `level` is 0 at the root.
#[derive(Debug)]
pub struct TaskTree {
    pub id: i64,
    pub description: String,
    pub complete: bool,
    pub children: Vec<TaskTree>,
    pub level: usize,
}

impl BuildError {
    /// A sentence that says what went wrong.
    pub fn message(&self) -> (r: &'static str)
        ensures
            r@ == match self {
                BuildError::MultipleRoots => "Multiple root tasks found"@,
                BuildError::NoRootFound => "No root task found"@,
            },
    {
        match self {
            BuildError::MultipleRoots => "Multiple root tasks found",
            BuildError::NoRootFound => "No root task found",
        }
    }
}

/// Indices, in input order, of the records among the first `n` whose parent is `id`.
pub open spec fn child_indices(rs: Seq<TaskView>, id: i64, n: int) -> Seq<int>
    decreases n,
{
    if n <= 0 {
        seq![]
    } else if rs[n - 1].parent == Some(id) {
        child_indices(rs, id, n - 1).push(n - 1)
    } else {
        child_indices(rs, id, n - 1)
    }
}

/// Indices, in input order, of the records whose parent is `id`.
pub open spec fn children_of(rs: Seq<TaskView>, id: i64) -> Seq<int> {
    child_indices(rs, id, rs.len() as int)
}

/// Indices, in input order, of the records among the first `n` that have no parent.
pub open spec fn parentless(rs: Seq<TaskView>, n: int) -> Seq<int>
    decreases n,
{
    if n <= 0 {
        seq![]
    } else if rs[n - 1].parent is None {
        parentless(rs, n - 1).push(n - 1)
    } else {
        parentless(rs, n - 1)
    }
}

/// Whether some record carries `id`.
pub open spec fn has_id(rs: Seq<TaskView>, id: i64) -> bool {
    exists|j: int| 0 <= j < rs.len() && #[trigger] rs[j].id == id
}

/// Whether record `j` names a parent that no record carries.
pub open spec fn is_orphan(rs: Seq<TaskView>, j: int) -> bool {
    rs[j].parent is Some && !has_id(rs, rs[j].parent->0)
}

/// The first orphan at index `k` or later.
pub open spec fn first_orphan_from(rs: Seq<TaskView>, k: int) -> Option<int>
    decreases rs.len() - k,
{
    if k < 0 || k >= rs.len() {
        None
    } else if is_orphan(rs, k) {
        Some(k)
    } else {
        first_orphan_from(rs, k + 1)
    }
}

/// The record the tree grows from: the one parentless record, or, where there
/// is none, the first orphan.
pub open spec fn root_choice(rs: Seq<TaskView>) -> Result<int, BuildError> {
    let roots = parentless(rs, rs.len() as int);
    if roots.len() > 1 {
        Err(BuildError::MultipleRoots)
    } else if roots.len() == 1 {
        Ok(roots[0])
    } else {
        match first_orphan_from(rs, 0) {
            Some(j) => Ok(j),
            None => Err(BuildError::NoRootFound),
        }
    }
}

/// The children that record `i` gets at `level`. A walk deeper than there are
/// records can only come back to a record it has passed, so it stops there.
pub open spec fn grown_children(rs: Seq<TaskView>, i: int, level: nat) -> Seq<int> {
    if level + 1 < rs.len() {
        children_of(rs, rs[i].id)
    } else {
        seq![]
    }
}

/// `t` is the subtree that grows from record `i` placed at `level`.
pub open spec fn is_subtree_of(t: TaskTree, rs: Seq<TaskView>, i: int, level: nat) -> bool
    decreases rs.len() - level,
{
    let cs = grown_children(rs, i, level);
    &&& t.id == rs[i].id
    &&& t.description@ == rs[i].description
    &&& t.complete == rs[i].complete
    &&& t.level == level
    &&& t.children.len() == cs.len()
    &&& forall|k: int|
        0 <= k < cs.len() ==> is_subtree_of(#[trigger] t.children@[k], rs, cs[k], level + 1)
}

proof fn lemma_parentless_grows(rs: Seq<TaskView>, k: int, n: int)
    requires
        0 <= k <= n,
    ensures
        parentless(rs, k).len() <= parentless(rs, n).len(),
    decreases n - k,
{
    if k < n {
        lemma_parentless_grows(rs, k, n - 1);
    }
}

/// Whether some task carries `id`.
fn contains_id(tasks: &Vec<Task>, id: i64) -> (r: bool)
    ensures
        r == has_id(task_views(tasks@), id),
{
    let ghost rs = task_views(tasks@);
    let mut j: usize = 0;
    while j < tasks.len()
        invariant
            j <= tasks.len(),
            rs == task_views(tasks@),
            forall|m: int| 0 <= m < j ==> rs[m].id != id,
        decreases tasks.len() - j,
    {
        if tasks[j].id == id {
            assert(rs[j as int].id == id);
            return true;
        }
        j += 1;
    }
    false
}

/// Indices of the tasks whose parent is `id`, in input order.
fn indices_of_children(tasks: &Vec<Task>, id: i64) -> (r: Vec<usize>)
    ensures
        r@.len() == children_of(task_views(tasks@), id).len(),
        forall|k: int|
            0 <= k < r@.len() ==> r@[k] as int == #[trigger] children_of(task_views(tasks@), id)[k],
        forall|k: int| 0 <= k < r@.len() ==> #[trigger] r@[k] < tasks.len(),
{
    let ghost rs = task_views(tasks@);
    let mut r: Vec<usize> = Vec::new();
    let mut j: usize = 0;
    while j < tasks.len()
        invariant
            j <= tasks.len(),
            rs == task_views(tasks@),
            r@.len() == child_indices(rs, id, j as int).len(),
            forall|k: int|
                0 <= k < r@.len() ==> r@[k] as int == #[trigger] child_indices(rs, id, j as int)[k],
            forall|k: int| 0 <= k < r@.len() ==> #[trigger] r@[k] < j,
        decreases tasks.len() - j,
    {
        if tasks[j].parent == Some(id) {
            r.push(j);
        }
        j += 1;
    }
    r
}

/// Where the tree grows from, or why there is no single place.
fn find_root(tasks: &Vec<Task>) -> (r: Result<usize, BuildError>)
    ensures
        match root_choice(task_views(tasks@)) {
            Ok(i) => r == Ok::<usize, BuildError>(i as usize) && 0 <= i < tasks.len(),
            Err(e) => r == Err::<usize, BuildError>(e),
        },
{
    let ghost rs = task_views(tasks@);
    let mut root: Option<usize> = None;
    let mut j: usize = 0;
    while j < tasks.len()
        invariant
            j <= tasks.len(),
            rs == task_views(tasks@),
            parentless(rs, j as int).len() <= 1,
            root is None <==> parentless(rs, j as int).len() == 0,
            root is Some ==> root->0 as int == parentless(rs, j as int)[0] && root->0 < j,
        decreases tasks.len() - j,
    {
        if tasks[j].parent.is_none() {
            if root.is_some() {
                proof {
                    lemma_parentless_grows(rs, j + 1, rs.len() as int);
                }
                return Err(BuildError::MultipleRoots);
            }
            root = Some(j);
        }
        j += 1;
    }
    if let Some(i) = root {
        return Ok(i);
    }
    let mut k: usize = 0;
    while k < tasks.len()
        invariant
            k <= tasks.len(),
            rs == task_views(tasks@),
            parentless(rs, rs.len() as int).len() == 0,
            first_orphan_from(rs, 0) == first_orphan_from(rs, k as int),
        decreases tasks.len() - k,
    {
        if let Some(p) = tasks[k].parent {
            if !contains_id(tasks, p) {
                return Ok(k);
            }
        }
        k += 1;
    }
    Err(BuildError::NoRootFound)
}

impl TaskTree {
    /// The subtree that grows from task `i` placed at `level`.
    fn grow(tasks: &Vec<Task>, i: usize, level: usize) -> (t: TaskTree)
        requires
            i < tasks.len(),
            level < tasks.len(),
        ensures
            is_subtree_of(t, task_views(tasks@), i as int, level as nat),
        decreases tasks.len() - level,
    {
        let ghost rs = task_views(tasks@);
        let ghost cs = grown_children(rs, i as int, level as nat);
        let mut children: Vec<TaskTree> = Vec::new();
        if level + 1 < tasks.len() {
            let idx = indices_of_children(tasks, tasks[i].id);
            let mut k: usize = 0;
            while k < idx.len()
                invariant
                    k <= idx.len(),
                    level + 1 < tasks.len(),
                    rs == task_views(tasks@),
                    cs == children_of(rs, rs[i as int].id),
                    idx@.len() == cs.len(),
                    forall|m: int| 0 <= m < idx@.len() ==> idx@[m] as int == #[trigger] cs[m],
                    forall|m: int| 0 <= m < idx@.len() ==> #[trigger] idx@[m] < tasks.len(),
                    children@.len() == k,
                    forall|m: int|
                        0 <= m < k ==> is_subtree_of(
                            #[trigger] children@[m],
                            rs,
                            cs[m],
                            (level + 1) as nat,
                        ),
                decreases idx.len() - k,
            {
                let c = TaskTree::grow(tasks, idx[k], level + 1);
                children.push(c);
                k += 1;
            }
        }
        TaskTree {
            id: tasks[i].id,
            description: tasks[i].description.clone(),
            complete: tasks[i].complete,
            children,
            level,
        }
    }

    /// Builds the tree that the flat records describe.
    ///
    /// The root is the one record without a parent; where no record lacks a
    /// parent, the first record whose parent is missing stands in for it.
    /// Each record's children are the records that name it as their parent, in
    /// the order in which they come. Records that the walk from the root never
    /// reaches are left out.
    pub fn build(tasks: &Vec<Task>) -> (r: Result<TaskTree, BuildError>)
        ensures
            match root_choice(task_views(tasks@)) {
                Ok(i) => r is Ok && is_subtree_of(r->Ok_0, task_views(tasks@), i, 0),
                Err(e) => r is Err && r->Err_0 == e,
            },
    {
        match find_root(tasks) {
            Ok(i) => Ok(TaskTree::grow(tasks, i, 0)),
            Err(e) => Err(e),
        }
    }
}

pub(crate) proof fn lemma_parentless_holds(rs: Seq<TaskView>, n: int, j: int)
    requires
        0 <= j < n,
        rs[j].parent is None,
    ensures
        parentless(rs, n).contains(j),
    decreases n,
{
    if j < n - 1 {
        lemma_parentless_holds(rs, n - 1, j);
        let before = parentless(rs, n - 1);
        let k = choose|k: int| 0 <= k < before.len() && before[k] == j;
        if rs[n - 1].parent is None {
            assert(parentless(rs, n)[k] == j);
        }
    } else {
        let s = parentless(rs, n);
        assert(s[s.len() - 1] == j);
    }
}

proof fn lemma_no_parentless(rs: Seq<TaskView>, n: int)
    requires
        n <= rs.len(),
        forall|j: int| 0 <= j < rs.len() ==> (#[trigger] rs[j]).parent is Some,
    ensures
        parentless(rs, n).len() == 0,
    decreases n,
{
    if n > 0 {
        lemma_no_parentless(rs, n - 1);
    }
}

proof fn lemma_no_orphan(rs: Seq<TaskView>, k: int)
    requires
        0 <= k,
        forall|j: int| 0 <= j < rs.len() ==> !is_orphan(rs, j),
    ensures
        first_orphan_from(rs, k) is None,
    decreases rs.len() - k,
{
    if k < rs.len() {
        lemma_no_orphan(rs, k + 1);
    }
}

/// Where two records have no parent, building fails with `MultipleRoots`.
pub proof fn lemma_two_roots_fail(rs: Seq<TaskView>, a: int, b: int)
    requires
        0 <= a < b < rs.len(),
        rs[a].parent is None,
        rs[b].parent is None,
    ensures
        root_choice(rs) == Err::<int, BuildError>(BuildError::MultipleRoots),
{
    let n = rs.len() as int;
    lemma_parentless_holds(rs, n, a);
    lemma_parentless_holds(rs, n, b);
    let s = parentless(rs, n);
    if s.len() <= 1 {
        let ia = choose|i: int| 0 <= i < s.len() && s[i] == a;
        let ib = choose|i: int| 0 <= i < s.len() && s[i] == b;
        assert(ia == 0 && ib == 0);
    }
}

/// Where every record has a parent and every parent is among the records,
/// so that nothing can stand as the root, building fails with `NoRootFound`.
pub proof fn lemma_no_entry_point_fails(rs: Seq<TaskView>)
    requires
        forall|j: int| 0 <= j < rs.len() ==> (#[trigger] rs[j]).parent is Some,
        forall|j: int| 0 <= j < rs.len() ==> has_id(rs, (#[trigger] rs[j]).parent->0),
    ensures
        root_choice(rs) == Err::<int, BuildError>(BuildError::NoRootFound),
{
    lemma_no_parentless(rs, rs.len() as int);
    assert forall|j: int| 0 <= j < rs.len() implies !is_orphan(rs, j) by {
        assert(has_id(rs, rs[j].parent->0));
    }
    lemma_no_orphan(rs, 0);
}

} // verus!
