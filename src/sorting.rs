use fuzzy_matcher::skim::SkimMatcherV2;
use fuzzy_matcher::FuzzyMatcher;
use vstd::prelude::*;

use crate::task::{Task, TaskView, task_views};

verus! {

/// The score that the skim fuzzy matcher, with its default settings, gives
/// `choice` against `pattern`; none where the pattern does not match.
pub uninterp spec fn skim_score(choice: Seq<char>, pattern: Seq<char>) -> Option<i64>;

/// Relies on fuzzy_matcher's `SkimMatcherV2::fuzzy_match` with the default
/// matcher, whose score depends on the two texts alone.
#[verifier::external_body]
fn fuzzy_score(choice: &str, pattern: &str) -> (r: Option<i64>)
    ensures
        r == skim_score(choice@, pattern@),
{
    SkimMatcherV2::default().fuzzy_match(choice, pattern)
}

/// The tasks that have a score, each with it, in input order.
pub open spec fn scored_by(tasks: Seq<TaskView>, scores: Seq<Option<i64>>) -> Seq<(TaskView, i64)>
    decreases tasks.len(),
{
    if tasks.len() == 0 {
        seq![]
    } else {
        let before = scored_by(tasks.drop_last(), scores.subrange(0, tasks.len() - 1));
        match scores[tasks.len() - 1] {
            Some(s) => before.push((tasks.last(), s)),
            None => before,
        }
    }
}

/// The skim scores of the tasks' descriptions against `term`.
pub open spec fn skim_scores(tasks: Seq<TaskView>, term: Seq<char>) -> Seq<Option<i64>> {
    Seq::new(tasks.len(), |k: int| skim_score(tasks[k].description, term))
}

/// The tasks that have a score, best first.
pub open spec fn ranked(tasks: Seq<TaskView>, scores: Seq<Option<i64>>) -> Seq<TaskView> {
    sort_by_score(scored_by(tasks, scores)).map_values(|p: (TaskView, i64)| p.0)
}

/// `x` placed after the leading entries of `sorted` that score at least as high.
pub open spec fn insert_by_score(sorted: Seq<(TaskView, i64)>, x: (TaskView, i64)) -> Seq<
    (TaskView, i64),
>
    decreases sorted.len(),
{
    if sorted.len() == 0 {
        seq![x]
    } else if sorted[0].1 >= x.1 {
        seq![sorted[0]] + insert_by_score(sorted.drop_first(), x)
    } else {
        seq![x] + sorted
    }
}

/// The entries ordered from the highest score down; entries of equal score
/// keep their order.
pub open spec fn sort_by_score(s: Seq<(TaskView, i64)>) -> Seq<(TaskView, i64)>
    decreases s.len(),
{
    if s.len() == 0 {
        s
    } else {
        insert_by_score(sort_by_score(s.drop_last()), s.last())
    }
}

/// The tasks that match `term`, best match first.
pub open spec fn search_result(tasks: Seq<TaskView>, term: Seq<char>) -> Seq<TaskView> {
    ranked(tasks, skim_scores(tasks, term))
}

/// The views of scored tasks.
pub open spec fn pair_views(s: Seq<(Task, i64)>) -> Seq<(TaskView, i64)> {
    s.map_values(|p: (Task, i64)| (p.0@, p.1))
}

proof fn lemma_insert_at(sorted: Seq<(TaskView, i64)>, x: (TaskView, i64), p: int)
    requires
        0 <= p <= sorted.len(),
        forall|m: int| 0 <= m < p ==> sorted[m].1 >= x.1,
        p < sorted.len() ==> sorted[p].1 < x.1,
    ensures
        insert_by_score(sorted, x) == sorted.insert(p, x),
    decreases sorted.len(),
{
    if sorted.len() == 0 {
        assert(sorted.insert(p, x) =~= seq![x]);
    } else if p == 0 {
        assert(sorted.insert(p, x) =~= seq![x] + sorted);
    } else {
        let rest = sorted.drop_first();
        lemma_insert_at(rest, x, p - 1);
        assert(sorted.insert(p, x) =~= seq![sorted[0]] + rest.insert(p - 1, x));
    }
}

/// The tasks that have a score, `scores[k]` being that of `tasks[k]`, ordered
/// from the highest score down; tasks of equal score keep their order.
pub fn rank_by_scores(tasks: Vec<Task>, scores: &Vec<Option<i64>>) -> (r: Vec<Task>)
    requires
        scores@.len() == tasks@.len(),
    ensures
        task_views(r@) == ranked(task_views(tasks@), scores@),
{
    let ghost views = task_views(tasks@);
    let mut ranked_so_far: Vec<(Task, i64)> = Vec::new();
    let mut k: usize = 0;
    while k < tasks.len()
        invariant
            k <= tasks.len(),
            scores@.len() == tasks@.len(),
            views == task_views(tasks@),
            pair_views(ranked_so_far@) == sort_by_score(
                scored_by(views.subrange(0, k as int), scores@.subrange(0, k as int)),
            ),
        decreases tasks.len() - k,
    {
        let task = &tasks[k];
        let ghost prefix = views.subrange(0, k + 1);
        let ghost sprefix = scores@.subrange(0, k + 1);
        assert(prefix.drop_last() =~= views.subrange(0, k as int));
        assert(sprefix.subrange(0, k as int) =~= scores@.subrange(0, k as int));
        assert(prefix.last() == task@);
        assert(sprefix[k as int] == scores@[k as int]);
        match scores[k] {
            Some(score) => {
                let mut p: usize = 0;
                while p < ranked_so_far.len() && ranked_so_far[p].1 >= score
                    invariant
                        p <= ranked_so_far.len(),
                        forall|m: int| 0 <= m < p ==> ranked_so_far@[m].1 >= score,
                    decreases ranked_so_far.len() - p,
                {
                    p += 1;
                }
                let ghost before = pair_views(ranked_so_far@);
                proof {
                    lemma_insert_at(before, (task@, score), p as int);
                }
                ranked_so_far.insert(p, (task.duplicate(), score));
                assert(pair_views(ranked_so_far@) =~= before.insert(p as int, (task@, score)));
                let ghost sc = scored_by(views.subrange(0, k as int), scores@.subrange(0, k as int));
                assert(scored_by(prefix, sprefix) == sc.push((task@, score)));
                assert(sc.push((task@, score)).drop_last() =~= sc);
                assert(sort_by_score(sc.push((task@, score))) == insert_by_score(
                    sort_by_score(sc),
                    (task@, score),
                ));
            },
            None => {
                assert(scored_by(prefix, sprefix) == scored_by(
                    views.subrange(0, k as int),
                    scores@.subrange(0, k as int),
                ));
            },
        }
        k += 1;
    }
    assert(views.subrange(0, tasks.len() as int) =~= views);
    assert(scores@.subrange(0, tasks.len() as int) =~= scores@);
    let mut out: Vec<Task> = Vec::new();
    let mut j: usize = 0;
    while j < ranked_so_far.len()
        invariant
            j <= ranked_so_far.len(),
            task_views(out@) =~= pair_views(ranked_so_far@).subrange(0, j as int).map_values(
                |p: (TaskView, i64)| p.0,
            ),
        decreases ranked_so_far.len() - j,
    {
        let ghost o0 = task_views(out@);
        out.push(ranked_so_far[j].0.duplicate());
        assert(task_views(out@) =~= o0.push(ranked_so_far@[j as int].0@));
        assert(pair_views(ranked_so_far@).subrange(0, j + 1) =~= pair_views(
            ranked_so_far@,
        ).subrange(0, j as int).push(pair_views(ranked_so_far@)[j as int]));
        j += 1;
    }
    out
}

/// The tasks whose description matches `term`, ordered from the best match
/// down; tasks that match equally well keep their order.
pub fn search(term: &str, tasks: Vec<Task>) -> (r: Vec<Task>)
    ensures
        task_views(r@) == search_result(task_views(tasks@), term@),
{
    let mut scores: Vec<Option<i64>> = Vec::new();
    let mut k: usize = 0;
    while k < tasks.len()
        invariant
            k <= tasks.len(),
            scores@ =~= skim_scores(task_views(tasks@), term@).subrange(0, k as int),
        decreases tasks.len() - k,
    {
        let score = fuzzy_score(tasks[k].description.as_str(), term);
        scores.push(score);
        k += 1;
    }
    assert(skim_scores(task_views(tasks@), term@).subrange(0, tasks.len() as int) =~= skim_scores(
        task_views(tasks@),
        term@,
    ));
    rank_by_scores(tasks, &scores)
}

} // verus!
