use teal::sorting::search;
use teal::task::Task;
use teal::ui::{
    filter_tasks, select_after_removal, select_next, select_previous, task_index_from_id,
    DisplayingTaskFullscreenData, DisplayingTasksData, DisplayingTasksStates, StateData, States,
};

fn task(id: i64, description: &str) -> Task {
    Task {
        id,
        description: description.to_string(),
        complete: false,
        parent: None,
    }
}

fn ids(tasks: &[Task]) -> Vec<i64> {
    tasks.iter().map(|t| t.id).collect()
}

#[test]
fn search_drops_non_matches_and_ranks_best_first() {
    let tasks = vec![
        task(1, "xaxpxpxlxe"),
        task(2, "banana"),
        task(3, "apple pie"),
    ];
    let found = search("apple", tasks);
    assert_eq!(ids(&found), vec![3, 1]);
}

#[test]
fn search_with_no_match_is_empty() {
    let tasks = vec![task(1, "walk the dog"), task(2, "feed cat")];
    assert!(search("zzz", tasks).is_empty());
}

#[test]
fn search_keeps_order_of_equal_scores() {
    let tasks = vec![task(4, "milk"), task(5, "milk"), task(6, "milk")];
    assert_eq!(ids(&search("milk", tasks)), vec![4, 5, 6]);
}

#[test]
fn index_from_id_finds_first() {
    let tasks = vec![task(4, "a"), task(7, "b"), task(7, "c")];
    assert_eq!(task_index_from_id(&tasks, Some(7)), Some(1));
    assert_eq!(task_index_from_id(&tasks, Some(8)), None);
    assert_eq!(task_index_from_id(&tasks, None), None);
}

#[test]
fn filter_without_search_keeps_all() {
    let tasks = vec![task(1, "a"), task(2, "b")];
    let data = DisplayingTasksData {
        selected_task: None,
        command_palette_text: String::new(),
        search_string: None,
    };
    assert_eq!(ids(&filter_tasks(&tasks, &data)), vec![1, 2]);
}

#[test]
fn filter_with_search_matches() {
    let tasks = vec![task(1, "buy milk"), task(2, "walk")];
    let data = DisplayingTasksData {
        selected_task: None,
        command_palette_text: "/milk".to_string(),
        search_string: Some("milk".to_string()),
    };
    assert_eq!(ids(&filter_tasks(&tasks, &data)), vec![1]);
}

#[test]
fn selection_moves_and_wraps() {
    let tasks = vec![task(10, "a"), task(20, "b"), task(30, "c")];
    assert_eq!(select_next(&tasks, None), Some(10));
    assert_eq!(select_next(&tasks, Some(20)), Some(30));
    assert_eq!(select_next(&tasks, Some(30)), Some(10));
    assert_eq!(select_previous(&tasks, None), Some(30));
    assert_eq!(select_previous(&tasks, Some(10)), Some(30));
    assert_eq!(select_previous(&tasks, Some(20)), Some(10));
    assert_eq!(select_next(&Vec::new(), Some(5)), Some(5));
}

#[test]
fn selection_after_removal() {
    let tasks = vec![task(10, "a"), task(20, "b")];
    assert_eq!(select_after_removal(&tasks, 1), Some(20));
    assert_eq!(select_after_removal(&tasks, 2), Some(20));
    assert_eq!(select_after_removal(&Vec::new(), 0), None);
}

#[test]
fn mode_labels_and_palette_text() {
    let data = DisplayingTasksData {
        selected_task: None,
        command_palette_text: "hello".to_string(),
        search_string: Some("x".to_string()),
    };
    assert_eq!(data.get_command_palette_text(), "hello");
    let full = DisplayingTaskFullscreenData {
        command_palette_text: "q to go back".to_string(),
        task_id: 3,
        selected_task: None,
    };
    assert_eq!(full.get_command_palette_text(), "q to go back");
    assert_eq!(
        States::DisplayingTasks(DisplayingTasksStates::Normal, data.clone()).mode_label(),
        Some("List (searching)")
    );
    assert_eq!(
        States::DisplayingTasks(DisplayingTasksStates::Create, data).mode_label(),
        Some("Append")
    );
    assert_eq!(States::DisplayingTaskFullscreen(full).mode_label(), Some("Task"));
    assert_eq!(States::Quitting.mode_label(), None);
}


#[test]
fn rank_by_given_scores() {
    let tasks = vec![task(1, "a"), task(2, "b"), task(3, "c"), task(4, "d")];
    let scores = vec![Some(5), None, Some(9), Some(5)];
    let ranked = teal::sorting::rank_by_scores(tasks, &scores);
    assert_eq!(ids(&ranked), vec![3, 1, 4]);
}

#[test]
fn rank_with_no_scores_is_empty() {
    let tasks = vec![task(1, "a")];
    assert!(teal::sorting::rank_by_scores(tasks, &vec![None]).is_empty());
}
