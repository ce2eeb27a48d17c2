use vstd::prelude::*;

use crate::github::{projects_wf, seq_view, Project, Task};
use crate::reconcile::{reconcile, reconcile_post, ResultingTasks};

verus! {

/// Decides whether two tasks record the same value, field by field.
pub fn task_equal(a: &Task, b: &Task) -> (r: bool)
    ensures
        r == (a@ == b@),
{
    let r = a.task_type == b.task_type && a.id == b.id && a.title == b.title && a.author
        == b.author && a.created_at == b.created_at && a.url == b.url && a.observed_at
        == b.observed_at;
    proof {
        if r {
            assert(a@ =~= b@);
        }
    }
    r
}

/// Decides whether two projects record the same value, tasks included.
pub fn project_equal(a: &Project, b: &Project) -> (r: bool)
    ensures
        r == (a@ == b@),
{
    if !(a.name == b.name && a.owner == b.owner && a.url == b.url) {
        return false;
    }
    if a.tasks.len() != b.tasks.len() {
        proof {
            assert(a@.tasks.len() != b@.tasks.len());
        }
        return false;
    }
    let n = a.tasks.len();
    for j in 0..n
        invariant
            n == a.tasks.len() == b.tasks.len(),
            forall|k: int| 0 <= k < j ==> a@.tasks[k] == b@.tasks[k],
    {
        if !task_equal(&a.tasks[j], &b.tasks[j]) {
            proof {
                assert(a@.tasks[j as int] != b@.tasks[j as int]);
            }
            return false;
        }
    }
    proof {
        assert(a@.tasks =~= b@.tasks);
        assert(a@ =~= b@);
    }
    true
}

/// Decides whether two baselines record the same sequence of projects.
pub fn baselines_equal(a: &Vec<Project>, b: &Vec<Project>) -> (r: bool)
    ensures
        r == (seq_view(a@) == seq_view(b@)),
{
    if a.len() != b.len() {
        proof {
            assert(seq_view(a@).len() != seq_view(b@).len());
        }
        return false;
    }
    let n = a.len();
    for i in 0..n
        invariant
            n == a.len() == b.len(),
            forall|k: int| 0 <= k < i ==> seq_view(a@)[k] == seq_view(b@)[k],
    {
        if !project_equal(&a[i], &b[i]) {
            proof {
                assert(seq_view(a@)[i as int] != seq_view(b@)[i as int]);
            }
            return false;
        }
    }
    proof {
        assert(seq_view(a@) =~= seq_view(b@));
    }
    true
}

/// The persistence decision at the end of a cycle: the baseline file is
/// rewritten only when the notification step did not fail and the
/// reconciled baseline actually differs from the one that was loaded. A
/// failed notification therefore always leaves the file untouched, so the
/// same novelty is recomputed and re-sent on the next cycle.
pub fn should_persist(loaded: &Vec<Project>, new_known: &Vec<Project>, notify_delivered: bool) -> (r:
    bool)
    ensures
        r == (notify_delivered && seq_view(loaded@) != seq_view(new_known@)),
        !notify_delivered ==> !r,
{
    notify_delivered && !baselines_equal(loaded, new_known)
}

/// Relies on `chrono::Utc::now`: the current wall-clock time, converted to
/// whole seconds since the Unix epoch. Nothing is assumed about the value.
#[verifier::external_body]
fn current_unix_time() -> (t: i64) {
    chrono::Utc::now().timestamp()
}

/// One reconciliation at the wall-clock time of the call. The result is a
/// reconciliation for some time `now`, whichever second the clock showed.
pub fn reconcile_at_current_time(known: &Vec<Project>, fresh: &Vec<Project>, retain_for: i64) -> (r:
    ResultingTasks)
    requires
        retain_for >= 0,
        projects_wf(seq_view(known@)),
        projects_wf(seq_view(fresh@)),
    ensures
        exists|now: int|
            reconcile_post(
                seq_view(known@),
                seq_view(fresh@),
                retain_for as int,
                now,
                seq_view(r.new_known@),
                seq_view(r.notify@),
            ),
{
    let now = current_unix_time();
    let r = reconcile(known, fresh, retain_for, now);
    proof {
        assert(reconcile_post(
            seq_view(known@),
            seq_view(fresh@),
            retain_for as int,
            now as int,
            seq_view(r.new_known@),
            seq_view(r.notify@),
        ));
    }
    r
}

} // verus!
