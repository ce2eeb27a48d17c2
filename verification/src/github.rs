use vstd::prelude::*;

verus! {

/// Marker for the remote query that pages through the viewer's own
/// repositories. The surrounding program builds the actual request.
pub struct ViewerReposQuery;

/// Marker for the remote query that pages through the organizations the
/// viewer can administer.
pub struct ViewerOrganizationsQuery;

/// Marker for the remote query that pages through one organization's
/// repositories.
pub struct OrganizationReposQuery;

/// Marker for the remote query that pages through one repository's issues,
/// pull requests and discussions.
pub struct RepoQuery;

/// The kind of a unit of attention inside a project.
#[derive(Clone, Copy, PartialEq, Eq, Structural, Debug)]
pub enum TaskType {
    Issue,
    Pr,
    Discussion,
}

/// A unit of attention (issue, pull request or discussion). Identity is the
/// `url` alone: two tasks with the same `url` are the same logical task even
/// if title or author drifted upstream. Timestamps are seconds since the
/// Unix epoch; `created_at` is assigned by the source, `observed_at` is
/// assigned locally the first time this engine recorded the task.
pub struct Task {
    pub task_type: TaskType,
    pub id: i64,
    pub title: String,
    pub author: String,
    pub created_at: i64,
    pub url: String,
    pub observed_at: i64,
}

/// The mathematical value of a `Task`.
#[verifier::ext_equal]
pub ghost struct TaskModel {
    pub task_type: TaskType,
    pub id: int,
    pub title: Seq<char>,
    pub author: Seq<char>,
    pub created_at: int,
    pub url: Seq<char>,
    pub observed_at: int,
}

impl View for Task {
    type V = TaskModel;

    open spec fn view(&self) -> TaskModel {
        TaskModel {
            task_type: self.task_type,
            id: self.id as int,
            title: self.title@,
            author: self.author@,
            created_at: self.created_at as int,
            url: self.url@,
            observed_at: self.observed_at as int,
        }
    }
}

impl Clone for Task {
    fn clone(&self) -> (r: Self)
        ensures
            r@ == self@,
    {
        let r = Task {
            task_type: self.task_type,
            id: self.id,
            title: self.title.clone(),
            author: self.author.clone(),
            created_at: self.created_at,
            url: self.url.clone(),
            observed_at: self.observed_at,
        };
        proof {
            assert(r@ =~= self@);
        }
        r
    }
}

impl Task {
    /// The identity of the task.
    pub fn url(&self) -> (r: String)
        ensures
            r@ == self@.url,
    {
        self.url.clone()
    }

    /// When the source created the task, as seconds since the Unix epoch.
    pub fn created_at(&self) -> (r: i64)
        ensures
            r == self@.created_at,
    {
        self.created_at
    }
}

/// A repository-like container of tasks. Identity is the `url` alone; the
/// task list is kept in insertion order, which carries no meaning.
pub struct Project {
    pub name: String,
    pub owner: String,
    pub url: String,
    pub tasks: Vec<Task>,
}

/// The mathematical value of a `Project`.
#[verifier::ext_equal]
pub ghost struct ProjectModel {
    pub name: Seq<char>,
    pub owner: Seq<char>,
    pub url: Seq<char>,
    pub tasks: Seq<TaskModel>,
}

impl View for Project {
    type V = ProjectModel;

    open spec fn view(&self) -> ProjectModel {
        ProjectModel {
            name: self.name@,
            owner: self.owner@,
            url: self.url@,
            tasks: self.tasks@.map_values(|t: Task| t@),
        }
    }
}

/// The mathematical value of a whole baseline or snapshot.
pub open spec fn seq_view(v: Seq<Project>) -> Seq<ProjectModel> {
    v.map_values(|p: Project| p@)
}

/// Task urls are pairwise distinct within the project.
pub open spec fn project_wf(p: ProjectModel) -> bool {
    forall|j: int, k: int|
        0 <= j < k < p.tasks.len() ==> p.tasks[j].url != p.tasks[k].url
}

/// Project urls are pairwise distinct, and every project is well formed.
/// Both the persisted baseline and a fresh snapshot are expected in this
/// shape: the url is the sole identity key on both levels.
pub open spec fn projects_wf(s: Seq<ProjectModel>) -> bool {
    &&& forall|i: int, j: int| 0 <= i < j < s.len() ==> s[i].url != s[j].url
    &&& forall|i: int| 0 <= i < s.len() ==> project_wf(#[trigger] s[i])
}

/// Some project in `s` carries the url `pu`.
pub open spec fn has_project(s: Seq<ProjectModel>, pu: Seq<char>) -> bool {
    exists|i: int| 0 <= i < s.len() && s[i].url == pu
}

/// The project with url `pu` in `s` holds a task with url `tu`.
pub open spec fn has_task(s: Seq<ProjectModel>, pu: Seq<char>, tu: Seq<char>) -> bool {
    exists|i: int, j: int|
        0 <= i < s.len() && s[i].url == pu && 0 <= j < s[i].tasks.len()
            && s[i].tasks[j].url == tu
}

/// The project with url `pu` in `s` holds the task value `t` itself.
pub open spec fn contains_task(s: Seq<ProjectModel>, pu: Seq<char>, t: TaskModel) -> bool {
    exists|i: int| 0 <= i < s.len() && s[i].url == pu && s[i].tasks.contains(t)
}

impl Project {
    /// Decides whether the task urls inside this project are pairwise
    /// distinct.
    pub fn check_wf(&self) -> (r: bool)
        ensures
            r == project_wf(self@),
    {
        let n = self.tasks.len();
        for j in 0..n
            invariant
                n == self.tasks.len(),
                forall|a: int, b: int| 0 <= a < b < self@.tasks.len() && a < j ==> self@.tasks[a].url != self@.tasks[b].url,
        {
            for k in (j + 1)..n
                invariant
                    j < n == self.tasks.len(),
                    forall|a: int, b: int| 0 <= a < b < self@.tasks.len() && a < j ==> self@.tasks[a].url != self@.tasks[b].url,
                    forall|b: int| j < b < k ==> self@.tasks[j as int].url != self@.tasks[b].url,
            {
                if self.tasks[j].url == self.tasks[k].url {
                    proof {
                        assert(self@.tasks[j as int].url == self@.tasks[k as int].url);
                        assert(!project_wf(self@));
                    }
                    return false;
                }
            }
        }
        true
    }
}

/// Decides whether a sequence of projects is well formed: project urls
/// pairwise distinct, task urls pairwise distinct within each project.
pub fn check_projects_wf(s: &Vec<Project>) -> (r: bool)
    ensures
        r == projects_wf(seq_view(s@)),
{
    let n = s.len();
    for i in 0..n
        invariant
            n == s.len(),
            forall|a: int, b: int| 0 <= a < b < s@.len() && a < i ==> seq_view(s@)[a].url != seq_view(s@)[b].url,
            forall|a: int| 0 <= a < i ==> project_wf(#[trigger] seq_view(s@)[a]),
    {
        if !s[i].check_wf() {
            proof {
                assert(!project_wf(seq_view(s@)[i as int]));
                assert(!projects_wf(seq_view(s@)));
            }
            return false;
        }
        for j in (i + 1)..n
            invariant
                i < n == s.len(),
                forall|a: int, b: int| 0 <= a < b < s@.len() && a < i ==> seq_view(s@)[a].url != seq_view(s@)[b].url,
                forall|a: int| 0 <= a <= i ==> project_wf(#[trigger] seq_view(s@)[a]),
                forall|b: int| i < b < j ==> seq_view(s@)[i as int].url != seq_view(s@)[b].url,
        {
            if s[i].url == s[j].url {
                proof {
                    assert(seq_view(s@)[i as int].url == seq_view(s@)[j as int].url);
                    assert(!projects_wf(seq_view(s@)));
                }
                return false;
            }
        }
    }
    true
}

} // verus!
