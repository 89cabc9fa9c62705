use vstd::prelude::*;

use crate::sorting::{search, search_result};
use crate::task::{Task, task_views};

verus! {

/// What the task list screen is doing.
#[derive(Debug, Clone, Copy, PartialEq, Eq, Structural)]
pub enum DisplayingTasksStates {
    Normal,
    Create,
    Search,
}

/// A screen that shows a command palette line.
pub trait StateData {
    /// The text of the palette line.
    spec fn palette_text(&self) -> Seq<char>;

    fn get_command_palette_text(&self) -> (r: &str)
        ensures
            r@ == self.palette_text(),
    ;
}

/// What the task list screen holds.
#[derive(Clone, PartialEq)]
pub struct DisplayingTasksData {
    pub selected_task: Option<i64>,
    pub command_palette_text: String,
    pub search_string: Option<String>,
}

/// What the screen of one task and its subtasks holds.
#[derive(Clone, PartialEq)]
pub struct DisplayingTaskFullscreenData {
    pub command_palette_text: String,
    pub task_id: i64,
    pub selected_task: Option<i64>,
}

impl StateData for DisplayingTasksData {
    open spec fn palette_text(&self) -> Seq<char> {
        self.command_palette_text@
    }

    fn get_command_palette_text(&self) -> (r: &str) {
        self.command_palette_text.as_str()
    }
}

impl StateData for DisplayingTaskFullscreenData {
    open spec fn palette_text(&self) -> Seq<char> {
        self.command_palette_text@
    }

    fn get_command_palette_text(&self) -> (r: &str) {
        self.command_palette_text.as_str()
    }
}

/// The screens the program moves between.
#[derive(PartialEq)]
pub enum States {
    Quitting,
    DisplayingTasks(DisplayingTasksStates, DisplayingTasksData),
    DisplayingTaskFullscreen(DisplayingTaskFullscreenData),
}

/// The index of the first task that carries `id`, if `id` is given and some
/// task carries it.
pub fn task_index_from_id(tasks: &Vec<Task>, id: Option<i64>) -> (r: Option<usize>)
    ensures
        match r {
            Some(i) => id is Some && i < tasks@.len() && tasks@[i as int].id == id->0 && forall|
                m: int,
            | 0 <= m < i ==> #[trigger] tasks@[m].id != id->0,
            None => id is None || forall|m: int|
                0 <= m < tasks@.len() ==> #[trigger] tasks@[m].id != id->0,
        },
{
    match id {
        None => None,
        Some(wanted) => {
            let mut k: usize = 0;
            while k < tasks.len()
                invariant
                    id == Some(wanted),
                    k <= tasks.len(),
                    forall|m: int| 0 <= m < k ==> #[trigger] tasks@[m].id != wanted,
                decreases tasks.len() - k,
            {
                if tasks[k].id == wanted {
                    return Some(k);
                }
                k += 1;
            }
            None
        },
    }
}

/// The tasks that the list screen shows: those that match its search, best
/// match first, or all of them where it has none.
pub fn filter_tasks(tasks: &Vec<Task>, state_data: &DisplayingTasksData) -> (r: Vec<Task>)
    ensures
        match state_data.search_string {
            Some(query) => task_views(r@) == search_result(task_views(tasks@), query@),
            None => task_views(r@) == task_views(tasks@),
        },
{
    let mut all: Vec<Task> = Vec::new();
    let mut k: usize = 0;
    while k < tasks.len()
        invariant
            k <= tasks.len(),
            task_views(all@) =~= task_views(tasks@).subrange(0, k as int),
        decreases tasks.len() - k,
    {
        let ghost a0 = task_views(all@);
        all.push(tasks[k].duplicate());
        assert(task_views(all@) =~= a0.push(tasks@[k as int]@));
        k += 1;
    }
    assert(task_views(tasks@).subrange(0, tasks.len() as int) =~= task_views(tasks@));
    match &state_data.search_string {
        Some(query) => search(query.as_str(), all),
        None => all,
    }
}

/// The selection after moving down the list: the task below the selected one,
/// wrapping round to the first, or the first where none of them is selected.
/// An empty list keeps the selection.
pub fn select_next(tasks: &Vec<Task>, selected: Option<i64>) -> (r: Option<i64>)
    ensures
        tasks@.len() == 0 ==> r == selected,
        tasks@.len() > 0 ==> match task_index_from_id_spec(tasks@, selected) {
            Some(i) if i + 1 < tasks@.len() => r == Some(tasks@[i + 1].id),
            _ => r == Some(tasks@[0].id),
        },
{
    if tasks.len() == 0 {
        return selected;
    }
    match task_index_from_id(tasks, selected) {
        Some(i) => {
            if i + 1 < tasks.len() {
                Some(tasks[i + 1].id)
            } else {
                Some(tasks[0].id)
            }
        },
        None => Some(tasks[0].id),
    }
}

/// The selection after moving up the list: the task above the selected one,
/// wrapping round to the last, or the last where none of them is selected.
/// An empty list keeps the selection.
pub fn select_previous(tasks: &Vec<Task>, selected: Option<i64>) -> (r: Option<i64>)
    ensures
        tasks@.len() == 0 ==> r == selected,
        tasks@.len() > 0 ==> match task_index_from_id_spec(tasks@, selected) {
            Some(i) if i > 0 => r == Some(tasks@[i - 1].id),
            _ => r == Some(tasks@[tasks@.len() - 1].id),
        },
{
    if tasks.len() == 0 {
        return selected;
    }
    match task_index_from_id(tasks, selected) {
        Some(i) => {
            if i > 0 {
                Some(tasks[i - 1].id)
            } else {
                Some(tasks[tasks.len() - 1].id)
            }
        },
        None => Some(tasks[tasks.len() - 1].id),
    }
}

/// The selection once the task at `index` has been removed and the list
/// reloaded as `tasks`: the task that now stands at `index`, or the last one
/// where the list has grown shorter than that, or none where it is empty.
pub fn select_after_removal(tasks: &Vec<Task>, index: usize) -> (r: Option<i64>)
    ensures
        tasks@.len() == 0 ==> r is None,
        tasks@.len() > 0 && index < tasks@.len() ==> r == Some(tasks@[index as int].id),
        tasks@.len() > 0 && index >= tasks@.len() ==> r == Some(tasks@[tasks@.len() - 1].id),
{
    if tasks.len() == 0 {
        None
    } else if index < tasks.len() {
        Some(tasks[index].id)
    } else {
        Some(tasks[tasks.len() - 1].id)
    }
}

/// The index of the first task that carries `id`.
pub open spec fn task_index_from_id_spec(tasks: Seq<Task>, id: Option<i64>) -> Option<int> {
    match id {
        Some(x) => if exists|i: int| 0 <= i < tasks.len() && #[trigger] tasks[i].id == x {
            Some(
                choose|i: int|
                    0 <= i < tasks.len() && #[trigger] tasks[i].id == x && forall|m: int|
                        0 <= m < i ==> #[trigger] tasks[m].id != x,
            )
        } else {
            None
        },
        None => None,
    }
}

impl States {
    /// The name of the mode that the mode line shows, if any.
    pub fn mode_label(&self) -> (r: Option<&'static str>)
        ensures
            match self {
                States::Quitting => r is None,
                States::DisplayingTasks(DisplayingTasksStates::Normal, data) => r is Some && (
                if data.search_string is Some {
                    r->0@ == "List (searching)"@
                } else {
                    r->0@ == "List"@
                }),
                States::DisplayingTasks(DisplayingTasksStates::Create, _) => r is Some && r->0@
                    == "Append"@,
                States::DisplayingTasks(DisplayingTasksStates::Search, _) => r is Some && r->0@
                    == "Search"@,
                States::DisplayingTaskFullscreen(_) => r is Some && r->0@ == "Task"@,
            },
    {
        match self {
            States::Quitting => None,
            States::DisplayingTasks(DisplayingTasksStates::Normal, data) => {
                if data.search_string.is_some() {
                    Some("List (searching)")
                } else {
                    Some("List")
                }
            },
            States::DisplayingTasks(DisplayingTasksStates::Create, _) => Some("Append"),
            States::DisplayingTasks(DisplayingTasksStates::Search, _) => Some("Search"),
            States::DisplayingTaskFullscreen(_) => Some("Task"),
        }
    }
}

} // verus!
