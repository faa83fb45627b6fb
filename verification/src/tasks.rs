//! Choice of a task of the project by its name.

use crate::text::{ascii_lowercase, eq_ignore_ascii_case, str_eq};
use vstd::prelude::*;

verus! {

/// The lower-case form of a text, as `str::to_lowercase` gives it.
pub uninterp spec fn lowercase_of(s: Seq<char>) -> Seq<char>;

/// `str::to_lowercase`: the lower-case form of `s`.  What that form is for
/// each character is left to the standard library; the same text always has
/// the same form.
#[verifier::external_body]
fn to_lowercase(s: &str) -> (out: String)
    ensures
        out@ == lowercase_of(s@),
{
    s.to_lowercase()
}

/// What is done for a task name.
#[derive(Debug, PartialEq, Eq)]
pub enum TaskChoice {
    /// List the tasks.
    List,
    /// Run the task of this name with this command.
    Run(String, String),
    /// No task has the name.
    Unknown,
}

/// What a `TaskChoice` stands for.
pub enum TaskChoiceView {
    List,
    Run(Seq<char>, Seq<char>),
    Unknown,
}

impl DeepView for TaskChoice {
    type V = TaskChoiceView;

    open spec fn deep_view(&self) -> TaskChoiceView {
        match self {
            TaskChoice::List => TaskChoiceView::List,
            TaskChoice::Run(name, command) => TaskChoiceView::Run(name@, command@),
            TaskChoice::Unknown => TaskChoiceView::Unknown,
        }
    }
}

/// The position of the first task whose name is `task` but for the case of
/// ASCII letters, or the number of tasks when there is none.
pub open spec fn task_index(tasks: Seq<(Seq<char>, Seq<char>)>, task: Seq<char>) -> nat
    decreases tasks.len(),
{
    if tasks.len() == 0 {
        0
    } else if ascii_lowercase(tasks[0].0) == ascii_lowercase(task) {
        0
    } else {
        1 + task_index(tasks.skip(1), task)
    }
}

/// What is done for the task name `task`, whose lower-case form is
/// `lowered`: the tasks are listed where that form is `list`; else the first
/// task of that name, but for the case of ASCII letters, is run.
pub open spec fn choice(
    tasks: Seq<(Seq<char>, Seq<char>)>,
    task: Seq<char>,
    lowered: Seq<char>,
) -> TaskChoiceView {
    if lowered == "list"@ {
        TaskChoiceView::List
    } else {
        let i = task_index(tasks, task) as int;
        if i < tasks.len() {
            TaskChoiceView::Run(tasks[i].0, tasks[i].1)
        } else {
            TaskChoiceView::Unknown
        }
    }
}

proof fn lemma_task_index(tasks: Seq<(Seq<char>, Seq<char>)>, task: Seq<char>, i: int)
    requires
        0 <= i <= tasks.len(),
        forall|j: int|
            0 <= j < i ==> ascii_lowercase((#[trigger] tasks[j]).0) != ascii_lowercase(task),
        i == tasks.len() || ascii_lowercase(tasks[i].0) == ascii_lowercase(task),
    ensures
        task_index(tasks, task) == i,
    decreases i,
{
    if i > 0 {
        assert(ascii_lowercase(tasks[0].0) != ascii_lowercase(task));
        assert forall|j: int| 0 <= j < i - 1 implies ascii_lowercase(
            (#[trigger] tasks.skip(1)[j]).0,
        ) != ascii_lowercase(task) by {
            assert(tasks.skip(1)[j] == tasks[j + 1]);
        }
        lemma_task_index(tasks.skip(1), task, i - 1);
    }
}

/// What is done for the task name `task`, whose lower-case form is
/// `lowered`.
pub fn task_for(tasks: &Vec<(String, String)>, task: &str, lowered: &str) -> (out: TaskChoice)
    ensures
        out.deep_view() == choice(tasks.deep_view(), task@, lowered@),
{
    if str_eq(lowered, "list") {
        return TaskChoice::List;
    }
    let mut i: usize = 0;
    while i < tasks.len()
        invariant
            i <= tasks.len(),
            lowered@ != "list"@,
            forall|j: int|
                0 <= j < i ==> ascii_lowercase((#[trigger] tasks.deep_view()[j]).0)
                    != ascii_lowercase(task@),
        decreases tasks.len() - i,
    {
        assert(tasks.deep_view()[i as int] == (tasks@[i as int].0@, tasks@[i as int].1@));
        if eq_ignore_ascii_case(tasks[i].0.as_str(), task) {
            proof {
                lemma_task_index(tasks.deep_view(), task@, i as int);
            }
            return TaskChoice::Run(tasks[i].0.clone(), tasks[i].1.clone());
        }
        i += 1;
    }
    proof {
        lemma_task_index(tasks.deep_view(), task@, i as int);
    }
    TaskChoice::Unknown
}

/// What is done for the task name `task`.
pub fn execute_task(tasks: &Vec<(String, String)>, task: &str) -> (out: TaskChoice)
    ensures
        out.deep_view() == choice(tasks.deep_view(), task@, lowercase_of(task@)),
{
    let lowered = to_lowercase(task);
    task_for(tasks, task, lowered.as_str())
}

} // verus!
