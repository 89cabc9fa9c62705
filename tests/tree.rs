use teal::connectors::{connector_for, connector_prefixes, Connector};
use teal::flatten::{try_to_flat_task_tree_element, FlatTaskTreeElement};
use teal::task::Task;
use teal::tree::{BuildError, TaskTree};

fn record(id: i64, parent: Option<i64>) -> Task {
    Task {
        id,
        description: format!("task {}", id),
        complete: false,
        parent,
    }
}

fn ids(rows: &[FlatTaskTreeElement]) -> Vec<i64> {
    rows.iter().map(|r| r.task.id).collect()
}

fn levels(rows: &[FlatTaskTreeElement]) -> Vec<usize> {
    rows.iter().map(|r| r.level).collect()
}

fn lasts(rows: &[FlatTaskTreeElement]) -> Vec<bool> {
    rows.iter().map(|r| r.last_under_parent).collect()
}

#[test]
fn scenario_a_builds_and_flattens_in_pre_order() {
    let records = vec![
        record(1, None),
        record(2, Some(1)),
        record(3, Some(1)),
        record(4, Some(2)),
    ];
    let tree = match TaskTree::build(&records) {
        Ok(t) => t,
        Err(e) => panic!("build failed: {:?}", e),
    };
    assert_eq!(tree.id, 1);
    assert_eq!(tree.level, 0);
    let child_ids: Vec<i64> = tree.children.iter().map(|c| c.id).collect();
    assert_eq!(child_ids, vec![2, 3]);
    assert_eq!(tree.children[0].children.len(), 1);
    assert_eq!(tree.children[0].children[0].id, 4);
    assert_eq!(tree.children[1].children.len(), 0);

    let rows = tree.flatten();
    assert_eq!(ids(&rows), vec![1, 2, 4, 3]);
    assert_eq!(levels(&rows), vec![0, 1, 2, 1]);
    assert_eq!(lasts(&rows), vec![true, false, true, true]);
    assert_eq!(rows[0].parent_ids, Vec::<i64>::new());
    assert_eq!(rows[1].parent_ids, vec![1]);
    assert_eq!(rows[2].parent_ids, vec![1, 2]);
    assert_eq!(rows[3].parent_ids, vec![1]);
    assert!(rows.iter().all(|r| r.task.parent.is_none()));
    assert_eq!(rows[2].task.description, "task 4");
}

#[test]
fn scenario_b_connectors_for_root_and_only_child() {
    let records = vec![record(1, None), record(2, Some(1))];
    let rows = try_to_flat_task_tree_element(&records).ok().unwrap();
    let prefixes = connector_prefixes(&rows);
    assert_eq!(prefixes.len(), 2);
    assert_eq!(prefixes[0], " ");
    assert_eq!(prefixes[1], "   └─ ");
}

#[test]
fn scenario_c_two_parentless_records_fail() {
    let records = vec![record(1, None), record(2, None)];
    assert_eq!(TaskTree::build(&records).err(), Some(BuildError::MultipleRoots));
    assert_eq!(
        try_to_flat_task_tree_element(&records).err(),
        Some(BuildError::MultipleRoots)
    );
}

#[test]
fn scenario_d_empty_records_fail() {
    let records: Vec<Task> = vec![];
    assert_eq!(TaskTree::build(&records).err(), Some(BuildError::NoRootFound));
}

#[test]
fn closed_cycle_has_no_root() {
    let records = vec![record(1, Some(2)), record(2, Some(1))];
    assert_eq!(TaskTree::build(&records).err(), Some(BuildError::NoRootFound));
}

#[test]
fn first_orphan_is_promoted_to_root() {
    let records = vec![
        record(5, Some(3)),
        record(7, Some(99)),
        record(6, Some(5)),
    ];
    let rows = try_to_flat_task_tree_element(&records).ok().unwrap();
    assert_eq!(ids(&rows), vec![5, 6]);
    assert_eq!(levels(&rows), vec![0, 1]);
}

#[test]
fn unreachable_cycle_is_left_out() {
    let records = vec![
        record(1, None),
        record(2, Some(1)),
        record(3, Some(4)),
        record(4, Some(3)),
    ];
    let rows = try_to_flat_task_tree_element(&records).ok().unwrap();
    assert_eq!(ids(&rows), vec![1, 2]);
}

#[test]
fn children_keep_input_order_not_id_order() {
    let records = vec![
        record(9, Some(1)),
        record(1, None),
        record(3, Some(1)),
        record(2, Some(1)),
    ];
    let rows = try_to_flat_task_tree_element(&records).ok().unwrap();
    assert_eq!(ids(&rows), vec![1, 9, 3, 2]);
    assert_eq!(lasts(&rows), vec![true, false, false, true]);
}

#[test]
fn self_parent_does_not_loop() {
    let records = vec![record(1, None), record(2, Some(2))];
    let rows = try_to_flat_task_tree_element(&records).ok().unwrap();
    assert_eq!(ids(&rows), vec![1]);
}

#[test]
fn duplicate_ids_stop_at_record_count() {
    let records = vec![record(1, None), record(1, Some(1))];
    let rows = try_to_flat_task_tree_element(&records).ok().unwrap();
    assert_eq!(levels(&rows), vec![0, 1]);
}

#[test]
fn flattening_twice_gives_the_same_rows() {
    let records = vec![record(1, None), record(2, Some(1)), record(3, Some(2))];
    let tree = TaskTree::build(&records).ok().unwrap();
    let first = tree.flatten();
    let second = tree.flatten();
    assert_eq!(ids(&first), ids(&second));
    assert_eq!(levels(&first), levels(&second));
    assert_eq!(lasts(&first), lasts(&second));
}

#[test]
fn connectors_draw_open_bars_for_later_siblings() {
    let records = vec![
        record(1, None),
        record(2, Some(1)),
        record(3, Some(2)),
        record(4, Some(3)),
        record(5, Some(1)),
    ];
    let rows = try_to_flat_task_tree_element(&records).ok().unwrap();
    assert_eq!(ids(&rows), vec![1, 2, 3, 4, 5]);
    let prefixes = connector_prefixes(&rows);
    assert_eq!(prefixes[0], " ");
    assert_eq!(prefixes[1], "   ├─ ");
    assert_eq!(prefixes[2], "   │    └─ ");
    assert_eq!(prefixes[3], "   │         └─ ");
    assert_eq!(prefixes[4], "   └─ ");
}

#[test]
fn connector_glyph_choices() {
    assert_eq!(connector_for(false, 0, true, Some(1)), Connector::Blank);
    assert_eq!(connector_for(true, 1, false, Some(1)), Connector::Branch);
    assert_eq!(connector_for(true, 1, false, Some(2)), Connector::Branch);
    assert_eq!(connector_for(true, 1, true, Some(2)), Connector::Corner);
    assert_eq!(connector_for(true, 2, false, Some(1)), Connector::Corner);
    assert_eq!(connector_for(true, 2, true, None), Connector::Corner);
}

#[test]
fn connectors_of_no_rows() {
    assert!(connector_prefixes(&Vec::new()).is_empty());
}

#[test]
fn number_path_lists_ancestors_then_own_id() {
    let records = vec![record(1, None), record(2, Some(1)), record(4, Some(2))];
    let rows = try_to_flat_task_tree_element(&records).ok().unwrap();
    assert_eq!(rows[2].number_path(), vec![1, 2, 4]);
    assert_eq!(rows[0].number_path(), vec![1]);
}

#[test]
fn well_formed_records_each_appear_once() {
    let records = vec![
        record(6, Some(2)),
        record(2, Some(1)),
        record(1, None),
        record(5, Some(3)),
        record(3, Some(1)),
        record(4, Some(2)),
    ];
    let rows = try_to_flat_task_tree_element(&records).ok().unwrap();
    assert_eq!(rows.len(), records.len());
    let mut seen = ids(&rows);
    seen.sort();
    assert_eq!(seen, vec![1, 2, 3, 4, 5, 6]);
    assert_eq!(ids(&rows), vec![1, 2, 6, 4, 3, 5]);
    assert_eq!(levels(&rows), vec![0, 1, 2, 2, 1, 2]);
    assert_eq!(lasts(&rows), vec![true, false, false, true, true, true]);
}

#[test]
fn three_parentless_records_fail() {
    let records = vec![record(1, None), record(2, Some(1)), record(3, None), record(4, None)];
    assert_eq!(TaskTree::build(&records).err(), Some(BuildError::MultipleRoots));
}

#[test]
fn build_error_messages() {
    assert_eq!(BuildError::MultipleRoots.message(), "Multiple root tasks found");
    assert_eq!(BuildError::NoRootFound.message(), "No root task found");
}

#[test]
fn duplicate_ids_can_repeat_rows() {
    let records = vec![
        record(1, None),
        record(2, Some(1)),
        record(3, Some(1)),
        record(1, Some(3)),
    ];
    let rows = try_to_flat_task_tree_element(&records).ok().unwrap();
    assert_eq!(ids(&rows), vec![1, 2, 3, 1, 2, 3]);
    assert_eq!(levels(&rows), vec![0, 1, 1, 2, 3, 3]);
}
