use vstd::prelude::*;

use crate::github::{
    contains_task, has_project, has_task, project_wf, projects_wf, seq_view, Project,
    ProjectModel, Task, TaskModel,
};

verus! {

/// A task survives pruning when it is not older than the retention window
/// and the project with url `pu` in the fresh snapshot still shows it. The
/// window is inclusive: a task recorded exactly `retain_for` seconds before
/// `now` still counts as within it.
pub open spec fn keep_task(
    t: TaskModel,
    fresh: Seq<ProjectModel>,
    pu: Seq<char>,
    now: int,
    retain_for: int,
) -> bool {
    t.observed_at >= now - retain_for && has_task(fresh, pu, t.url)
}

/// One known project after pruning: only the tasks that survive stay.
pub open spec fn prune_project(
    p: ProjectModel,
    fresh: Seq<ProjectModel>,
    now: int,
    retain_for: int,
) -> ProjectModel {
    ProjectModel {
        name: p.name,
        owner: p.owner,
        url: p.url,
        tasks: p.tasks.filter(|t: TaskModel| keep_task(t, fresh, p.url, now, retain_for)),
    }
}

/// The whole baseline after pruning: every project is pruned, and projects
/// that end up with no tasks are dropped entirely. A project absent from the
/// fresh snapshot loses all its tasks, so it is dropped by the same rule.
pub open spec fn prune_baseline(
    known: Seq<ProjectModel>,
    fresh: Seq<ProjectModel>,
    now: int,
    retain_for: int,
) -> Seq<ProjectModel> {
    known.map_values(|p: ProjectModel| prune_project(p, fresh, now, retain_for)).filter(
        |p: ProjectModel| p.tasks.len() > 0,
    )
}

/// Filtering a sequence extended by one element keeps the filtered prefix
/// and appends the new element exactly when it satisfies the predicate.
pub proof fn lemma_filter_push<A>(s: Seq<A>, x: A, pred: spec_fn(A) -> bool)
    ensures
        s.push(x).filter(pred) == if pred(x) {
            s.filter(pred).push(x)
        } else {
            s.filter(pred)
        },
{
    reveal(Seq::filter);
    assert(s.push(x).drop_last() =~= s);
    assert(s.push(x).last() == x);
}

/// A filter whose predicate rejects every element yields the empty sequence.
pub proof fn lemma_filter_all_false<A>(s: Seq<A>, pred: spec_fn(A) -> bool)
    requires
        forall|i: int| 0 <= i < s.len() ==> !pred(s[i]),
    ensures
        s.filter(pred).len() == 0,
    decreases s.len(),
{
    reveal(Seq::filter);
    if s.len() > 0 {
        lemma_filter_all_false(s.drop_last(), pred);
    }
}

/// In a well-formed sequence of projects, membership of a task url under a
/// given project url is decided by the one project that carries that url.
pub proof fn lemma_has_task_unique(s: Seq<ProjectModel>, i: int, tu: Seq<char>)
    requires
        projects_wf(s),
        0 <= i < s.len(),
    ensures
        has_task(s, s[i].url, tu) <==> exists|j: int|
            0 <= j < s[i].tasks.len() && s[i].tasks[j].url == tu,
{
    if has_task(s, s[i].url, tu) {
        let (a, b): (int, int) = choose|a: int, b: int|
            0 <= a < s.len() && s[a].url == s[i].url && 0 <= b < s[a].tasks.len()
                && s[a].tasks[b].url == tu;
        assert(a == i);
    }
    if exists|j: int| 0 <= j < s[i].tasks.len() && s[i].tasks[j].url == tu {
        let j = choose|j: int| 0 <= j < s[i].tasks.len() && s[i].tasks[j].url == tu;
        assert(0 <= i < s.len() && s[i].url == s[i].url && 0 <= j < s[i].tasks.len()
            && s[i].tasks[j].url == tu);
    }
}

/// Finds the first project carrying the given url, scanning in order.
pub fn lookup_project(projects: &Vec<Project>, url: &String) -> (r: Option<usize>)
    ensures
        match r {
            Some(i) => 0 <= i < projects@.len() && seq_view(projects@)[i as int].url == url@
                && forall|k: int| 0 <= k < i ==> seq_view(projects@)[k].url != url@,
            None => !has_project(seq_view(projects@), url@),
        },
{
    let n = projects.len();
    for i in 0..n
        invariant
            n == projects.len(),
            forall|k: int| 0 <= k < i ==> seq_view(projects@)[k].url != url@,
    {
        if projects[i].url == *url {
            return Some(i);
        }
    }
    None
}

/// Finds the first task carrying the given url inside one project.
pub fn lookup_task(project: &Project, url: &String) -> (r: Option<usize>)
    ensures
        match r {
            Some(j) => 0 <= j < project@.tasks.len() && project@.tasks[j as int].url == url@
                && forall|k: int| 0 <= k < j ==> project@.tasks[k].url != url@,
            None => forall|j: int| 0 <= j < project@.tasks.len() ==> project@.tasks[j].url != url@,
        },
{
    let n = project.tasks.len();
    for j in 0..n
        invariant
            n == project.tasks.len(),
            forall|k: int| 0 <= k < j ==> project@.tasks[k].url != url@,
    {
        if project.tasks[j].url == *url {
            return Some(j);
        }
    }
    None
}

/// The first step of a reconciliation: every known project is looked up by
/// url in the fresh snapshot; a known task stays only if the fresh project
/// still shows its url and its `observed_at` lies within the retention
/// window ending at `now`; projects left without tasks are dropped.
pub fn prune_stale(known: &Vec<Project>, fresh: &Vec<Project>, now: i64, retain_for: i64) -> (out:
    Vec<Project>)
    requires
        retain_for >= 0,
        projects_wf(seq_view(fresh@)),
    ensures
        seq_view(out@) == prune_baseline(
            seq_view(known@),
            seq_view(fresh@),
            now as int,
            retain_for as int,
        ),
{
    let ghost kv = seq_view(known@);
    let ghost fv = seq_view(fresh@);
    let ghost gnow = now as int;
    let ghost gret = retain_for as int;
    let mut out: Vec<Project> = Vec::new();
    let n = known.len();
    proof {
        assert(kv.take(0) =~= Seq::<ProjectModel>::empty());
        reveal(Seq::filter);
        assert(seq_view(out@) =~= prune_baseline(kv.take(0), fv, gnow, gret));
    }
    for i in 0..n
        invariant
            n == known.len(),
            kv == seq_view(known@),
            fv == seq_view(fresh@),
            gnow == now as int,
            gret == retain_for as int,
            retain_for >= 0,
            projects_wf(fv),
            seq_view(out@) =~= prune_baseline(kv.take(i as int), fv, gnow, gret),
    {
        let kp = &known[i];
        let ghost kpv = kv[i as int];
        let ghost pruned_tasks = kpv.tasks.filter(
            |t: TaskModel| keep_task(t, fv, kpv.url, gnow, gret),
        );
        match lookup_project(fresh, &kp.url) {
            Option::None => {
                proof {
                    assert forall|j: int| 0 <= j < kpv.tasks.len() implies !keep_task(
                        kpv.tasks[j],
                        fv,
                        kpv.url,
                        gnow,
                        gret,
                    ) by {
                        if has_task(fv, kpv.url, kpv.tasks[j].url) {
                            assert(has_project(fv, kpv.url));
                        }
                    }
                    lemma_filter_all_false(
                        kpv.tasks,
                        |t: TaskModel| keep_task(t, fv, kpv.url, gnow, gret),
                    );
                    assert(kv.take(i + 1) =~= kv.take(i as int).push(kpv));
                    assert(kv.take(i + 1).map_values(
                        |p: ProjectModel| prune_project(p, fv, gnow, gret),
                    ) =~= kv.take(i as int).map_values(
                        |p: ProjectModel| prune_project(p, fv, gnow, gret),
                    ).push(prune_project(kpv, fv, gnow, gret)));
                    lemma_filter_push(
                        kv.take(i as int).map_values(
                            |p: ProjectModel| prune_project(p, fv, gnow, gret),
                        ),
                        prune_project(kpv, fv, gnow, gret),
                        |p: ProjectModel| p.tasks.len() > 0,
                    );
                    assert(seq_view(out@) =~= prune_baseline(kv.take(i + 1), fv, gnow, gret));
                }
            },
            Option::Some(fi) => {
                let fp = &fresh[fi];
                let ghost fpv = fv[fi as int];
                let mut kept: Vec<Task> = Vec::new();
                let m = kp.tasks.len();
                proof {
                    assert(kpv.tasks.take(0) =~= Seq::<TaskModel>::empty());
                    reveal(Seq::filter);
                }
                for j in 0..m
                    invariant
                        m == kp.tasks.len(),
                        kpv == kp@,
                        fpv == fp@,
                        fpv == fv[fi as int],
                        fpv.url == kpv.url,
                        0 <= fi < fv.len(),
                        fv == seq_view(fresh@),
                        gnow == now as int,
                        gret == retain_for as int,
                        retain_for >= 0,
                        projects_wf(fv),
                        kept@.map_values(|t: Task| t@) =~= kpv.tasks.take(j as int).filter(
                            |t: TaskModel| keep_task(t, fv, kpv.url, gnow, gret),
                        ),
                {
                    let t = &kp.tasks[j];
                    let time_ok = match now.checked_sub(retain_for) {
                        Option::Some(threshold) => t.observed_at >= threshold,
                        Option::None => true,
                    };
                    let still_shown = lookup_task(fp, &t.url).is_some();
                    proof {
                        lemma_has_task_unique(fv, fi as int, t@.url);
                        assert(time_ok == (t@.observed_at >= gnow - gret));
                        assert((time_ok && still_shown) == keep_task(
                            kpv.tasks[j as int],
                            fv,
                            kpv.url,
                            gnow,
                            gret,
                        ));
                        assert(kpv.tasks.take(j + 1) =~= kpv.tasks.take(j as int).push(
                            kpv.tasks[j as int],
                        ));
                        lemma_filter_push(
                            kpv.tasks.take(j as int),
                            kpv.tasks[j as int],
                            |t: TaskModel| keep_task(t, fv, kpv.url, gnow, gret),
                        );
                    }
                    if time_ok && still_shown {
                        kept.push(t.clone());
                    }
                }
                proof {
                    assert(kpv.tasks.take(m as int) =~= kpv.tasks);
                    assert(kept@.map_values(|t: Task| t@) =~= pruned_tasks);
                }
                if kept.len() > 0 {
                    let np = Project {
                        name: kp.name.clone(),
                        owner: kp.owner.clone(),
                        url: kp.url.clone(),
                        tasks: kept,
                    };
                    proof {
                        assert(np@ =~= prune_project(kpv, fv, gnow, gret));
                    }
                    out.push(np);
                } else {
                    proof {
                        assert(pruned_tasks.len() == 0);
                    }
                }
                proof {
                    assert(kv.take(i + 1) =~= kv.take(i as int).push(kpv));
                    assert(kv.take(i + 1).map_values(
                        |p: ProjectModel| prune_project(p, fv, gnow, gret),
                    ) =~= kv.take(i as int).map_values(
                        |p: ProjectModel| prune_project(p, fv, gnow, gret),
                    ).push(prune_project(kpv, fv, gnow, gret)));
                    lemma_filter_push(
                        kv.take(i as int).map_values(
                            |p: ProjectModel| prune_project(p, fv, gnow, gret),
                        ),
                        prune_project(kpv, fv, gnow, gret),
                        |p: ProjectModel| p.tasks.len() > 0,
                    );
                    assert(seq_view(out@) =~= prune_baseline(kv.take(i + 1), fv, gnow, gret));
                }
            },
        }
    }
    proof {
        assert(kv.take(n as int) =~= kv);
    }
    out
}

/// The task value `t` as it is recorded the first time the engine sees it:
/// all fields as fetched, `observed_at` set to the time of recording.
pub open spec fn stamped(t: TaskModel, now: int) -> TaskModel {
    TaskModel {
        task_type: t.task_type,
        id: t.id,
        title: t.title,
        author: t.author,
        created_at: t.created_at,
        url: t.url,
        observed_at: now,
    }
}

/// Inserts `task` under `project` into `list` unless the pair of urls is
/// already known there. A missing project is created with `project`'s
/// owner, name and url and exactly the one task; a present project gets the
/// task appended; a present task leaves `list` untouched. An inserted task
/// carries `observed_at == now`. Returns whether anything was inserted.
pub fn upsert_task(list: &mut Vec<Project>, project: &Project, task: &Task, now: i64) -> (added:
    bool)
    requires
        projects_wf(seq_view(old(list)@)),
    ensures
        projects_wf(seq_view(final(list)@)),
        added == !has_task(seq_view(old(list)@), project@.url, task@.url),
        !added ==> seq_view(final(list)@) == seq_view(old(list)@),
        forall|pu: Seq<char>, tu: Seq<char>|
            has_task(seq_view(final(list)@), pu, tu) <==> has_task(seq_view(old(list)@), pu, tu) || (
            added && pu == project@.url && tu == task@.url),
        forall|pu: Seq<char>, t: TaskModel|
            contains_task(seq_view(final(list)@), pu, t) <==> contains_task(seq_view(old(list)@), pu, t)
                || (added && pu == project@.url && t == stamped(task@, now as int)),
        forall|pu: Seq<char>|
            has_project(seq_view(final(list)@), pu) <==> has_project(seq_view(old(list)@), pu) || (added
                && pu == project@.url),
        seq_view(old(list)@).len() <= seq_view(final(list)@).len() <= seq_view(old(list)@).len() + 1,
        forall|i: int|
            0 <= i < seq_view(old(list)@).len() ==> {
                &&& (#[trigger] seq_view(final(list)@)[i]).url == seq_view(old(list)@)[i].url
                &&& seq_view(final(list)@)[i].owner == seq_view(old(list)@)[i].owner
                &&& seq_view(final(list)@)[i].name == seq_view(old(list)@)[i].name
                &&& seq_view(old(list)@)[i].tasks.len() <= seq_view(final(list)@)[i].tasks.len()
            },
        forall|i: int|
            seq_view(old(list)@).len() <= i < seq_view(final(list)@).len() ==> {
                &&& (#[trigger] seq_view(final(list)@)[i]).url == project@.url
                &&& seq_view(final(list)@)[i].owner == project@.owner
                &&& seq_view(final(list)@)[i].name == project@.name
                &&& seq_view(final(list)@)[i].tasks.len() == 1
            },
{
    let ghost oldv = seq_view(list@);
    let ghost st = stamped(task@, now as int);
    match lookup_project(list, &project.url) {
        Option::None => {
            let mut tc = task.clone();
            tc.observed_at = now;
            proof {
                assert(tc@ =~= st);
            }
            let mut ts: Vec<Task> = Vec::new();
            ts.push(tc);
            let np = Project {
                name: project.name.clone(),
                owner: project.owner.clone(),
                url: project.url.clone(),
                tasks: ts,
            };
            proof {
                assert(np@.tasks =~= seq![st]);
            }
            list.push(np);
            proof {
                assert(seq_view(list@) =~= oldv.push(np@));
                let newv = seq_view(list@);
                assert forall|pu: Seq<char>, tu: Seq<char>|
                    has_task(newv, pu, tu) implies has_task(oldv, pu, tu) || (pu == project@.url
                    && tu == task@.url) by {
                    let (a, b): (int, int) = choose|a: int, b: int|
                        0 <= a < newv.len() && newv[a].url == pu && 0 <= b < newv[a].tasks.len()
                            && newv[a].tasks[b].url == tu;
                    if a < oldv.len() {
                        assert(has_task(oldv, pu, tu));
                    }
                }
                assert forall|pu: Seq<char>, t: TaskModel|
                    contains_task(newv, pu, t) implies contains_task(oldv, pu, t) || (pu
                    == project@.url && t == st) by {
                    let a = choose|a: int|
                        0 <= a < newv.len() && newv[a].url == pu && newv[a].tasks.contains(t);
                    if a < oldv.len() {
                        assert(contains_task(oldv, pu, t));
                    } else {
                        assert(newv[a].tasks =~= seq![st]);
                    }
                }
                assert forall|pu: Seq<char>|
                    has_project(newv, pu) implies has_project(oldv, pu) || pu == project@.url by {
                    let a = choose|a: int| 0 <= a < newv.len() && newv[a].url == pu;
                    if a < oldv.len() {
                        assert(has_project(oldv, pu));
                    }
                }
                assert forall|pu: Seq<char>, tu: Seq<char>|
                    has_task(oldv, pu, tu) implies has_task(newv, pu, tu) by {
                    let (a, b): (int, int) = choose|a: int, b: int|
                        0 <= a < oldv.len() && oldv[a].url == pu && 0 <= b < oldv[a].tasks.len()
                            && oldv[a].tasks[b].url == tu;
                    assert(newv[a].url == pu && newv[a].tasks[b].url == tu);
                }
                assert forall|pu: Seq<char>, t: TaskModel|
                    contains_task(oldv, pu, t) implies contains_task(newv, pu, t) by {
                    let a = choose|a: int|
                        0 <= a < oldv.len() && oldv[a].url == pu && oldv[a].tasks.contains(t);
                    assert(newv[a].url == pu && newv[a].tasks.contains(t));
                }
                assert forall|pu: Seq<char>|
                    has_project(oldv, pu) implies has_project(newv, pu) by {
                    let a = choose|a: int| 0 <= a < oldv.len() && oldv[a].url == pu;
                    assert(newv[a].url == pu);
                }
                assert(newv[oldv.len() as int] == np@);
                assert(np@.tasks[0] == st);
                assert(newv[oldv.len() as int].tasks.contains(st));
                assert(has_task(newv, project@.url, task@.url));
                assert(contains_task(newv, project@.url, st));
                assert(has_project(newv, project@.url));
            }
            true
        },
        Option::Some(pi) => {
            let found = lookup_task(&list[pi], &task.url);
            proof {
                lemma_has_task_unique(oldv, pi as int, task@.url);
            }
            match found {
                Option::Some(_) => {
                    proof {
                        assert(has_task(oldv, project@.url, task@.url));
                    }
                    false
                },
                Option::None => {
                    let mut tc = task.clone();
                    tc.observed_at = now;
                    proof {
                        assert(tc@ =~= st);
                        assert(!has_task(oldv, project@.url, task@.url));
                    }
                    let mut p = list.remove(pi);
                    p.tasks.push(tc);
                    list.insert(pi, p);
                    proof {
                        let newv = seq_view(list@);
                        let opv = oldv[pi as int];
                        let npv = newv[pi as int];
                        assert(npv.tasks =~= opv.tasks.push(st));
                        assert(newv =~= oldv.update(
                            pi as int,
                            ProjectModel {
                                name: opv.name,
                                owner: opv.owner,
                                url: opv.url,
                                tasks: opv.tasks.push(st),
                            },
                        ));
                        assert forall|pu: Seq<char>, tu: Seq<char>|
                            has_task(newv, pu, tu) implies has_task(oldv, pu, tu) || (pu
                            == project@.url && tu == task@.url) by {
                            let (a, b): (int, int) = choose|a: int, b: int|
                                0 <= a < newv.len() && newv[a].url == pu && 0 <= b
                                    < newv[a].tasks.len() && newv[a].tasks[b].url == tu;
                            if a != pi as int || b < opv.tasks.len() {
                                assert(has_task(oldv, pu, tu));
                            }
                        }
                        assert forall|pu: Seq<char>, tu: Seq<char>|
                            has_task(oldv, pu, tu) implies has_task(newv, pu, tu) by {
                            let (a, b): (int, int) = choose|a: int, b: int|
                                0 <= a < oldv.len() && oldv[a].url == pu && 0 <= b
                                    < oldv[a].tasks.len() && oldv[a].tasks[b].url == tu;
                            assert(newv[a].tasks[b].url == tu);
                        }
                        assert forall|pu: Seq<char>, t: TaskModel|
                            contains_task(newv, pu, t) implies contains_task(oldv, pu, t) || (pu
                            == project@.url && t == st) by {
                            let a = choose|a: int|
                                0 <= a < newv.len() && newv[a].url == pu && newv[a].tasks.contains(
                                    t,
                                );
                            if a == pi as int {
                                let b = choose|b: int|
                                    0 <= b < npv.tasks.len() && npv.tasks[b] == t;
                                if b < opv.tasks.len() {
                                    assert(opv.tasks.contains(t));
                                    assert(contains_task(oldv, pu, t));
                                } else {
                                    assert(t == st);
                                }
                            } else {
                                assert(contains_task(oldv, pu, t));
                            }
                        }
                        assert forall|pu: Seq<char>, t: TaskModel|
                            contains_task(oldv, pu, t) implies contains_task(newv, pu, t) by {
                            let a = choose|a: int|
                                0 <= a < oldv.len() && oldv[a].url == pu && oldv[a].tasks.contains(
                                    t,
                                );
                            let b = choose|b: int|
                                0 <= b < oldv[a].tasks.len() && oldv[a].tasks[b] == t;
                            assert(newv[a].tasks[b] == t);
                            assert(newv[a].tasks.contains(t));
                        }
                        assert forall|pu: Seq<char>|
                            has_project(newv, pu) implies has_project(oldv, pu) by {
                            let a = choose|a: int| 0 <= a < newv.len() && newv[a].url == pu;
                            assert(oldv[a].url == pu);
                        }
                        assert forall|pu: Seq<char>|
                            has_project(oldv, pu) implies has_project(newv, pu) by {
                            let a = choose|a: int| 0 <= a < oldv.len() && oldv[a].url == pu;
                            assert(newv[a].url == pu);
                        }
                        assert(npv.tasks[opv.tasks.len() as int] == st);
                        assert(has_task(newv, project@.url, task@.url));
                        assert(contains_task(newv, project@.url, st));
                        assert forall|j: int, k: int|
                            0 <= j < k < npv.tasks.len() implies npv.tasks[j].url
                            != npv.tasks[k].url by {
                            assert(project_wf(opv));
                            if k == npv.tasks.len() - 1 {
                                assert(npv.tasks[j] == opv.tasks[j]);
                            }
                        }
                        assert(project_wf(npv));
                        assert(projects_wf(newv));
                    }
                    true
                },
            }
        },
    }
}

/// The task value `t` is a fresh snapshot task of the project with url
/// `pu`, recorded with `observed_at == now` and otherwise unchanged.
pub open spec fn fresh_stamped(
    f: Seq<ProjectModel>,
    pu: Seq<char>,
    t: TaskModel,
    now: int,
) -> bool {
    exists|a: int, b: int|
        0 <= a < f.len() && 0 <= b < f[a].tasks.len() && f[a].url == pu && t == stamped(
            #[trigger] f[a].tasks[b],
            now,
        )
}

/// Some project in `s` carries the same url, owner and name as `p`.
pub open spec fn described_in(s: Seq<ProjectModel>, p: ProjectModel) -> bool {
    exists|a: int|
        0 <= a < s.len() && (#[trigger] s[a]).url == p.url && s[a].owner == p.owner && s[a].name
            == p.name
}

/// The second step of a reconciliation: every project/task pair of the
/// fresh snapshot is upserted into the pruned baseline; the pairs that were
/// actually inserted — the newly discovered tasks — are upserted into a
/// parallel notification list as well. Inserted tasks carry
/// `observed_at == now`.
pub fn merge_fresh(pruned: Vec<Project>, fresh: &Vec<Project>, now: i64) -> (r: (
    Vec<Project>,
    Vec<Project>,
))
    requires
        projects_wf(seq_view(pruned@)),
        forall|k: int|
            0 <= k < seq_view(pruned@).len() ==> (#[trigger] seq_view(pruned@)[k]).tasks.len() > 0,
    ensures
        projects_wf(seq_view(r.0@)),
        projects_wf(seq_view(r.1@)),
        forall|k: int|
            0 <= k < seq_view(r.0@).len() ==> (#[trigger] seq_view(r.0@)[k]).tasks.len() > 0,
        forall|pu: Seq<char>, tu: Seq<char>|
            has_task(seq_view(r.0@), pu, tu) <==> has_task(seq_view(pruned@), pu, tu) || has_task(
                seq_view(fresh@),
                pu,
                tu,
            ),
        forall|pu: Seq<char>, tu: Seq<char>|
            has_task(seq_view(r.1@), pu, tu) <==> has_task(seq_view(fresh@), pu, tu) && !has_task(
                seq_view(pruned@),
                pu,
                tu,
            ),
        forall|pu: Seq<char>, t: TaskModel|
            contains_task(seq_view(pruned@), pu, t) ==> contains_task(seq_view(r.0@), pu, t),
        forall|pu: Seq<char>, t: TaskModel|
            contains_task(seq_view(r.0@), pu, t) ==> contains_task(seq_view(pruned@), pu, t)
                || fresh_stamped(seq_view(fresh@), pu, t, now as int),
        forall|pu: Seq<char>, t: TaskModel|
            contains_task(seq_view(r.1@), pu, t) ==> fresh_stamped(
                seq_view(fresh@),
                pu,
                t,
                now as int,
            ),
        seq_view(r.1@).len() == 0 ==> seq_view(r.0@) == seq_view(pruned@),
        forall|k: int|
            0 <= k < seq_view(r.1@).len() ==> (#[trigger] seq_view(r.1@)[k]).tasks.len() > 0
                && exists|a: int|
                0 <= a < seq_view(fresh@).len() && (#[trigger] seq_view(fresh@)[a]).url == seq_view(
                    r.1@,
                )[k].url && seq_view(fresh@)[a].owner == seq_view(r.1@)[k].owner && seq_view(
                    fresh@,
                )[a].name == seq_view(r.1@)[k].name,
        forall|pu: Seq<char>|
            has_project(seq_view(r.0@), pu) ==> has_project(seq_view(pruned@), pu) || has_project(
                seq_view(fresh@),
                pu,
            ),
        forall|k: int|
            0 <= k < seq_view(r.0@).len() ==> described_in(
                seq_view(pruned@),
                #[trigger] seq_view(r.0@)[k],
            ) || described_in(seq_view(fresh@), seq_view(r.0@)[k]),
        forall|pu: Seq<char>|
            has_project(seq_view(r.1@), pu) ==> has_project(seq_view(fresh@), pu),
{
    let ghost b0 = seq_view(pruned@);
    let ghost f = seq_view(fresh@);
    let ghost gnow = now as int;
    let mut known = pruned;
    let mut notify: Vec<Project> = Vec::new();
    let n = fresh.len();
    for i in 0..n
        invariant
            n == fresh.len(),
            f == seq_view(fresh@),
            gnow == now as int,
            projects_wf(seq_view(known@)),
            projects_wf(seq_view(notify@)),
            forall|k: int|
                0 <= k < seq_view(known@).len() ==> (#[trigger] seq_view(known@)[k]).tasks.len()
                    > 0,
            forall|pu: Seq<char>, t: TaskModel|
                contains_task(b0, pu, t) ==> contains_task(seq_view(known@), pu, t),
            forall|pu: Seq<char>, t: TaskModel|
                contains_task(seq_view(known@), pu, t) ==> contains_task(b0, pu, t)
                    || fresh_stamped(f, pu, t, gnow),
            forall|pu: Seq<char>, t: TaskModel|
                contains_task(seq_view(notify@), pu, t) ==> fresh_stamped(f, pu, t, gnow),
            forall|pu: Seq<char>, tu: Seq<char>|
                has_task(seq_view(known@), pu, tu) ==> has_task(b0, pu, tu) || has_task(f, pu, tu),
            forall|pu: Seq<char>, tu: Seq<char>|
                #![trigger has_task(b0, pu, tu)]
                has_task(b0, pu, tu) ==> has_task(seq_view(known@), pu, tu),
            forall|a: int, b: int|
                0 <= a < i && 0 <= b < f[a].tasks.len() ==> has_task(
                    seq_view(known@),
                    f[a].url,
                    (#[trigger] f[a].tasks[b]).url,
                ),
            forall|pu: Seq<char>, tu: Seq<char>|
                #![trigger has_task(seq_view(notify@), pu, tu)]
                has_task(seq_view(notify@), pu, tu) <==> has_task(seq_view(known@), pu, tu)
                    && !has_task(b0, pu, tu),
            seq_view(notify@).len() == 0 ==> seq_view(known@) == b0,
            forall|k: int|
                0 <= k < seq_view(notify@).len() ==> (#[trigger] seq_view(notify@)[k]).tasks.len()
                    > 0 && exists|a: int|
                    0 <= a < f.len() && (#[trigger] f[a]).url == seq_view(notify@)[k].url
                        && f[a].owner == seq_view(notify@)[k].owner && f[a].name == seq_view(
                        notify@,
                    )[k].name,
            forall|pu: Seq<char>|
                has_project(seq_view(known@), pu) ==> has_project(b0, pu) || has_project(f, pu),
            forall|pu: Seq<char>|
                has_project(seq_view(notify@), pu) ==> has_project(f, pu),
            forall|k: int|
                0 <= k < seq_view(known@).len() ==> described_in(
                    b0,
                    #[trigger] seq_view(known@)[k],
                ) || described_in(f, seq_view(known@)[k]),
    {
        let fp = &fresh[i];
        let m = fp.tasks.len();
        proof {
            assert(fp@ == f[i as int]);
        }
        for j in 0..m
            invariant
                n == fresh.len(),
                0 <= i < n,
                m == fp.tasks.len(),
                fp == &fresh[i as int],
                fp@ == f[i as int],
                f == seq_view(fresh@),
                gnow == now as int,
                projects_wf(seq_view(known@)),
                projects_wf(seq_view(notify@)),
                forall|k: int|
                    0 <= k < seq_view(known@).len() ==> (#[trigger] seq_view(
                        known@,
                    )[k]).tasks.len() > 0,
                forall|pu: Seq<char>, t: TaskModel|
                    contains_task(b0, pu, t) ==> contains_task(seq_view(known@), pu, t),
                forall|pu: Seq<char>, t: TaskModel|
                    contains_task(seq_view(known@), pu, t) ==> contains_task(b0, pu, t)
                        || fresh_stamped(f, pu, t, gnow),
                forall|pu: Seq<char>, t: TaskModel|
                    contains_task(seq_view(notify@), pu, t) ==> fresh_stamped(f, pu, t, gnow),
                forall|pu: Seq<char>, tu: Seq<char>|
                    has_task(seq_view(known@), pu, tu) ==> has_task(b0, pu, tu) || has_task(
                        f,
                        pu,
                        tu,
                    ),
                forall|pu: Seq<char>, tu: Seq<char>|
                    #![trigger has_task(b0, pu, tu)]
                    has_task(b0, pu, tu) ==> has_task(seq_view(known@), pu, tu),
                forall|a: int, b: int|
                    0 <= a < i && 0 <= b < f[a].tasks.len() ==> has_task(
                        seq_view(known@),
                        f[a].url,
                        (#[trigger] f[a].tasks[b]).url,
                    ),
                forall|b: int|
                    0 <= b < j ==> has_task(
                        seq_view(known@),
                        f[i as int].url,
                        (#[trigger] f[i as int].tasks[b]).url,
                    ),
                forall|pu: Seq<char>, tu: Seq<char>|
                    #![trigger has_task(seq_view(notify@), pu, tu)]
                    has_task(seq_view(notify@), pu, tu) <==> has_task(seq_view(known@), pu, tu)
                        && !has_task(b0, pu, tu),
                seq_view(notify@).len() == 0 ==> seq_view(known@) == b0,
                forall|k: int|
                    0 <= k < seq_view(notify@).len() ==> (#[trigger] seq_view(
                        notify@,
                    )[k]).tasks.len() > 0 && exists|a: int|
                        0 <= a < f.len() && (#[trigger] f[a]).url == seq_view(notify@)[k].url
                            && f[a].owner == seq_view(notify@)[k].owner && f[a].name == seq_view(
                            notify@,
                        )[k].name,
                forall|pu: Seq<char>|
                    has_project(seq_view(known@), pu) ==> has_project(b0, pu) || has_project(
                        f,
                        pu,
                    ),
                forall|pu: Seq<char>|
                    has_project(seq_view(notify@), pu) ==> has_project(f, pu),
                forall|k: int|
                    0 <= k < seq_view(known@).len() ==> described_in(
                        b0,
                        #[trigger] seq_view(known@)[k],
                    ) || described_in(f, seq_view(known@)[k]),
        {
            let t = &fp.tasks[j];
            let ghost ku = seq_view(known@);
            let ghost nu = seq_view(notify@);
            let ghost cpu = f[i as int].url;
            let ghost ctu = f[i as int].tasks[j as int].url;
            proof {
                assert(t@ == f[i as int].tasks[j as int]);
                assert(has_task(f, cpu, ctu));
            }
            let added = upsert_task(&mut known, fp, t, now);
            proof {
                assert(fresh_stamped(f, cpu, stamped(f[i as int].tasks[j as int], gnow), gnow));
                let kv2 = seq_view(known@);
                assert forall|k: int|
                    0 <= k < kv2.len() implies described_in(b0, #[trigger] kv2[k]) || described_in(
                    f,
                    kv2[k],
                ) by {
                    if k < ku.len() {
                        assert(kv2[k].url == ku[k].url && kv2[k].owner == ku[k].owner
                            && kv2[k].name == ku[k].name);
                        if described_in(b0, ku[k]) {
                            let a = choose|a: int|
                                0 <= a < b0.len() && b0[a].url == ku[k].url
                                    && b0[a].owner == ku[k].owner && b0[a].name == ku[k].name;
                            assert(described_in(b0, kv2[k]));
                        } else {
                            let a = choose|a: int|
                                0 <= a < f.len() && f[a].url == ku[k].url
                                    && f[a].owner == ku[k].owner && f[a].name == ku[k].name;
                            assert(described_in(f, kv2[k]));
                        }
                    } else {
                        assert(kv2[k].url == f[i as int].url && kv2[k].owner == f[i as int].owner
                            && kv2[k].name == f[i as int].name);
                        assert(described_in(f, kv2[k]));
                    }
                }
            }
            if added {
                proof {
                    assert(!has_task(ku, cpu, ctu));
                    assert(!has_task(b0, cpu, ctu));
                    assert(!has_task(nu, cpu, ctu));
                }
                upsert_task(&mut notify, fp, t, now);
                proof {
                    let kv2 = seq_view(known@);
                    let nv2 = seq_view(notify@);
                    assert forall|pu: Seq<char>, tu: Seq<char>|
                        has_task(nv2, pu, tu) <==> has_task(kv2, pu, tu) && !has_task(
                        b0,
                        pu,
                        tu,
                    ) by {
                        assert(has_task(nv2, pu, tu) <==> (has_task(nu, pu, tu) || (pu == cpu && tu
                            == ctu)));
                        assert(has_task(kv2, pu, tu) <==> (has_task(ku, pu, tu) || (pu == cpu && tu
                            == ctu)));
                        assert(has_task(nu, pu, tu) <==> has_task(ku, pu, tu) && !has_task(
                            b0,
                            pu,
                            tu,
                        ));
                    }
                }
            } else {
                proof {
                    assert(seq_view(known@) == ku && seq_view(notify@) == nu);
                }
            }
            proof {
                assert(has_task(seq_view(known@), cpu, ctu));
            }
        }
    }
    proof {
        let kv = seq_view(known@);
        let nv = seq_view(notify@);
        assert forall|pu: Seq<char>, tu: Seq<char>|
            has_task(kv, pu, tu) <==> has_task(b0, pu, tu) || has_task(f, pu, tu) by {
            if has_task(f, pu, tu) {
                let (a, b): (int, int) = choose|a: int, b: int|
                    0 <= a < f.len() && f[a].url == pu && 0 <= b < f[a].tasks.len()
                        && f[a].tasks[b].url == tu;
                assert(has_task(kv, f[a].url, f[a].tasks[b].url));
            }
        }
        assert forall|pu: Seq<char>, tu: Seq<char>|
            has_task(nv, pu, tu) <==> has_task(f, pu, tu) && !has_task(b0, pu, tu) by {}
    }
    (known, notify)
}



/// The most recent `created_at` among the tasks, or the smallest
/// representable time for a project without tasks.
pub open spec fn max_created(ts: Seq<TaskModel>) -> int
    decreases ts.len(),
{
    if ts.len() == 0 {
        i64::MIN as int
    } else {
        let rest = max_created(ts.drop_last());
        if ts.last().created_at > rest {
            ts.last().created_at
        } else {
            rest
        }
    }
}

/// Projects ordered so that the one with the most recently created task
/// comes first.
pub open spec fn sorted_by_latest_desc(s: Seq<ProjectModel>) -> bool {
    forall|a: int, b: int|
        0 <= a < b < s.len() ==> max_created(#[trigger] s[a].tasks) >= max_created(
            #[trigger] s[b].tasks,
        )
}

/// The most recent `created_at` among this project's tasks.
pub fn latest_created(p: &Project) -> (r: i64)
    ensures
        r == max_created(p@.tasks),
{
    let mut r = i64::MIN;
    let n = p.tasks.len();
    proof {
        assert(p@.tasks.take(0) =~= Seq::<TaskModel>::empty());
    }
    for j in 0..n
        invariant
            n == p.tasks.len(),
            r == max_created(p@.tasks.take(j as int)),
    {
        let c = p.tasks[j].created_at;
        proof {
            assert(p@.tasks.take(j + 1).drop_last() =~= p@.tasks.take(j as int));
            assert(p@.tasks.take(j + 1).last() == p@.tasks[j as int]);
            assert(c == p@.tasks[j as int].created_at);
        }
        if c > r {
            r = c;
        }
    }
    proof {
        assert(p@.tasks.take(n as int) =~= p@.tasks);
    }
    r
}

/// The position of a project whose most recent task is no older than any
/// other project's most recent task.
fn index_of_latest(v: &Vec<Project>) -> (mi: usize)
    requires
        v@.len() > 0,
    ensures
        mi < v@.len(),
        forall|k: int|
            0 <= k < v@.len() ==> max_created(seq_view(v@)[mi as int].tasks) >= max_created(
                (#[trigger] seq_view(v@)[k]).tasks,
            ),
{
    let mut mi: usize = 0;
    let mut best = latest_created(&v[0]);
    let n = v.len();
    for k in 1..n
        invariant
            n == v.len(),
            0 < n,
            mi < k <= n,
            best == max_created(seq_view(v@)[mi as int].tasks),
            forall|a: int|
                0 <= a < k ==> best >= max_created((#[trigger] seq_view(v@)[a]).tasks),
    {
        let c = latest_created(&v[k]);
        if c > best {
            best = c;
            mi = k;
        }
    }
    mi
}

/// Sorts projects by their most recent task's `created_at`, most recent
/// first. The result is a permutation of the input.
pub fn sort_by_latest(v: Vec<Project>) -> (out: Vec<Project>)
    ensures
        seq_view(out@).to_multiset() == seq_view(v@).to_multiset(),
        seq_view(out@).len() == seq_view(v@).len(),
        sorted_by_latest_desc(seq_view(out@)),
{
    broadcast use vstd::seq_lib::group_to_multiset_ensures;

    let ghost orig = seq_view(v@);
    let mut rest = v;
    let mut out: Vec<Project> = Vec::new();
    proof {
        assert(seq_view(out@) =~= Seq::<ProjectModel>::empty());
        assert(seq_view(out@).to_multiset().add(seq_view(rest@).to_multiset())
            =~= orig.to_multiset());
    }
    while rest.len() > 0
        invariant
            seq_view(out@).to_multiset().add(seq_view(rest@).to_multiset())
                == orig.to_multiset(),
            seq_view(out@).len() + seq_view(rest@).len() == orig.len(),
            sorted_by_latest_desc(seq_view(out@)),
            forall|a: int, b: int|
                0 <= a < seq_view(out@).len() && 0 <= b < seq_view(rest@).len() ==> max_created(
                    (#[trigger] seq_view(out@)[a]).tasks,
                ) >= max_created((#[trigger] seq_view(rest@)[b]).tasks),
        decreases rest.len(),
    {
        let ghost rv = seq_view(rest@);
        let ghost ov = seq_view(out@);
        let mi = index_of_latest(&rest);
        let p = rest.remove(mi);
        proof {
            assert(p@ == rv[mi as int]);
            assert(seq_view(rest@) =~= rv.remove(mi as int));
            vstd::seq_lib::to_multiset_remove(rv, mi as int);
            assert(seq_view(rest@).to_multiset() =~= rv.to_multiset().remove(p@));
        }
        out.push(p);
        proof {
            assert(seq_view(out@) =~= ov.push(rv[mi as int]));
            vstd::seq_lib::to_multiset_build(ov, rv[mi as int]);
            assert(seq_view(out@).to_multiset() =~= ov.to_multiset().insert(rv[mi as int]));
            vstd::seq_lib::to_multiset_contains(rv, rv[mi as int]);
            assert(rv.contains(rv[mi as int]));
            assert(rv.to_multiset().count(rv[mi as int]) > 0);
            assert(seq_view(out@).to_multiset().add(seq_view(rest@).to_multiset())
                =~= orig.to_multiset());
            assert forall|a: int, b: int|
                0 <= a < seq_view(out@).len() && 0 <= b < seq_view(rest@).len() implies max_created(
                (#[trigger] seq_view(out@)[a]).tasks,
            ) >= max_created((#[trigger] seq_view(rest@)[b]).tasks) by {
                if b < mi as int {
                    assert(seq_view(rest@)[b] == rv[b]);
                } else {
                    assert(seq_view(rest@)[b] == rv[b + 1]);
                }
            }
        }
    }
    proof {
        assert forall|x: ProjectModel| seq_view(rest@).to_multiset().count(x) == 0 by {
            vstd::seq_lib::to_multiset_contains(seq_view(rest@), x);
        }
        assert(seq_view(out@).to_multiset() =~= orig.to_multiset());
    }
    out
}

/// Two sequences with the same multiset of projects hold the same project
/// urls and the same project/task url pairs.
pub proof fn lemma_permutation_preserves_pairs(a: Seq<ProjectModel>, b: Seq<ProjectModel>)
    requires
        a.to_multiset() == b.to_multiset(),
    ensures
        forall|pu: Seq<char>, tu: Seq<char>| has_task(a, pu, tu) <==> has_task(b, pu, tu),
        forall|pu: Seq<char>, t: TaskModel| contains_task(a, pu, t) <==> contains_task(b, pu, t),
        forall|pu: Seq<char>| has_project(a, pu) <==> has_project(b, pu),
        forall|x: ProjectModel| a.contains(x) <==> b.contains(x),
{
    broadcast use vstd::seq_lib::group_to_multiset_ensures;

    assert forall|x: ProjectModel| a.contains(x) <==> b.contains(x) by {
        assert(a.contains(x) <==> a.to_multiset().count(x) > 0);
        assert(b.contains(x) <==> b.to_multiset().count(x) > 0);
    }
    assert forall|pu: Seq<char>, tu: Seq<char>| has_task(a, pu, tu) <==> has_task(b, pu, tu) by {
        if has_task(a, pu, tu) {
            let (i, j): (int, int) = choose|i: int, j: int|
                0 <= i < a.len() && a[i].url == pu && 0 <= j < a[i].tasks.len()
                    && a[i].tasks[j].url == tu;
            assert(a.contains(a[i]));
            assert(b.contains(a[i]));
            let k = choose|k: int| 0 <= k < b.len() && b[k] == a[i];
            assert(b[k].url == pu && b[k].tasks[j].url == tu);
        }
        if has_task(b, pu, tu) {
            let (i, j): (int, int) = choose|i: int, j: int|
                0 <= i < b.len() && b[i].url == pu && 0 <= j < b[i].tasks.len()
                    && b[i].tasks[j].url == tu;
            assert(b.contains(b[i]));
            assert(a.contains(b[i]));
            let k = choose|k: int| 0 <= k < a.len() && a[k] == b[i];
            assert(a[k].url == pu && a[k].tasks[j].url == tu);
        }
    }
    assert forall|pu: Seq<char>, t: TaskModel|
        contains_task(a, pu, t) <==> contains_task(b, pu, t) by {
        if contains_task(a, pu, t) {
            let i = choose|i: int| 0 <= i < a.len() && a[i].url == pu && a[i].tasks.contains(t);
            assert(a.contains(a[i]));
            assert(b.contains(a[i]));
            let k = choose|k: int| 0 <= k < b.len() && b[k] == a[i];
            assert(b[k].url == pu && b[k].tasks.contains(t));
        }
        if contains_task(b, pu, t) {
            let i = choose|i: int| 0 <= i < b.len() && b[i].url == pu && b[i].tasks.contains(t);
            assert(b.contains(b[i]));
            assert(a.contains(b[i]));
            let k = choose|k: int| 0 <= k < a.len() && a[k] == b[i];
            assert(a[k].url == pu && a[k].tasks.contains(t));
        }
    }
    assert forall|pu: Seq<char>| has_project(a, pu) <==> has_project(b, pu) by {
        if has_project(a, pu) {
            let i = choose|i: int| 0 <= i < a.len() && a[i].url == pu;
            assert(a.contains(a[i]));
            assert(b.contains(a[i]));
            let k = choose|k: int| 0 <= k < b.len() && b[k] == a[i];
            assert(b[k].url == pu);
        }
        if has_project(b, pu) {
            let i = choose|i: int| 0 <= i < b.len() && b[i].url == pu;
            assert(b.contains(b[i]));
            assert(a.contains(b[i]));
            let k = choose|k: int| 0 <= k < a.len() && a[k] == b[i];
            assert(a[k].url == pu);
        }
    }
}

/// A permutation of a well-formed sequence of projects is well formed.
pub proof fn lemma_permutation_preserves_wf(a: Seq<ProjectModel>, b: Seq<ProjectModel>)
    requires
        projects_wf(a),
        a.to_multiset() == b.to_multiset(),
    ensures
        projects_wf(b),
{
    lemma_permutation_preserves_pairs(a, b);
    assert forall|i: int, j: int|
        0 <= i < a.len() && 0 <= j < a.len() && i != j implies a[i] != a[j] by {
        if i < j {
            assert(a[i].url != a[j].url);
        } else {
            assert(a[j].url != a[i].url);
        }
    }
    assert(a.no_duplicates());
    a.lemma_multiset_has_no_duplicates();
    b.lemma_multiset_has_no_duplicates_conv();
    assert forall|i: int, j: int| 0 <= i < j < b.len() implies b[i].url != b[j].url by {
        if b[i].url == b[j].url {
            assert(b[i] != b[j]);
            assert(b.contains(b[i]) && b.contains(b[j]));
            assert(a.contains(b[i]) && a.contains(b[j]));
            let x = choose|x: int| 0 <= x < a.len() && a[x] == b[i];
            let y = choose|y: int| 0 <= y < a.len() && a[y] == b[j];
            assert(x != y);
            if x < y {
                assert(a[x].url != a[y].url);
            } else {
                assert(a[y].url != a[x].url);
            }
            assert(false);
        }
    }
    assert forall|k: int| 0 <= k < b.len() implies project_wf(#[trigger] b[k]) by {
        assert(b.contains(b[k]));
        assert(a.contains(b[k]));
        let x = choose|x: int| 0 <= x < a.len() && a[x] == b[k];
        assert(project_wf(a[x]));
    }
}

/// Every element of a filtered sequence is an element of the original.
pub proof fn lemma_filter_subset<A>(s: Seq<A>, pred: spec_fn(A) -> bool, i: int)
    requires
        0 <= i < s.filter(pred).len(),
    ensures
        s.contains(s.filter(pred)[i]),
    decreases s.len(),
{
    reveal(Seq::filter);
    if s.len() > 0 {
        let sub = s.drop_last().filter(pred);
        if pred(s.last()) && i == s.filter(pred).len() - 1 {
            assert(s.filter(pred)[i] == s.last());
        } else {
            lemma_filter_subset(s.drop_last(), pred, i);
            assert(s.drop_last().contains(sub[i]));
            let k = choose|k: int| 0 <= k < s.drop_last().len() && s.drop_last()[k] == sub[i];
            assert(s[k] == sub[i]);
        }
    }
}

/// A filter whose predicate accepts every element gives the sequence back.
pub proof fn lemma_filter_all_true<A>(s: Seq<A>, pred: spec_fn(A) -> bool)
    requires
        forall|i: int| 0 <= i < s.len() ==> pred(s[i]),
    ensures
        s.filter(pred) == s,
    decreases s.len(),
{
    reveal(Seq::filter);
    if s.len() > 0 {
        lemma_filter_all_true(s.drop_last(), pred);
        assert(s.filter(pred) =~= s);
    }
}

/// What survives a prune: exactly the task values that stood in the known
/// baseline under the same project url and satisfy the keep condition.
pub proof fn lemma_prune_membership(
    known: Seq<ProjectModel>,
    fresh: Seq<ProjectModel>,
    now: int,
    retain_for: int,
)
    ensures
        forall|pu: Seq<char>, t: TaskModel|
            contains_task(#[trigger] prune_baseline(known, fresh, now, retain_for), pu, t)
                <==> contains_task(known, pu, t) && keep_task(t, fresh, pu, now, retain_for),
        forall|pu: Seq<char>|
            #[trigger] has_project(prune_baseline(known, fresh, now, retain_for), pu)
                ==> has_project(fresh, pu) && has_project(known, pu),
        forall|k: int|
            0 <= k < prune_baseline(known, fresh, now, retain_for).len() ==> described_in(
                known,
                #[trigger] prune_baseline(known, fresh, now, retain_for)[k],
            ),
{
    broadcast use vstd::seq_lib::group_filter_ensures;

    let pruned = prune_baseline(known, fresh, now, retain_for);
    let mapped = known.map_values(|p: ProjectModel| prune_project(p, fresh, now, retain_for));
    assert forall|pu: Seq<char>, t: TaskModel|
        contains_task(pruned, pu, t) implies contains_task(known, pu, t) && keep_task(
        t,
        fresh,
        pu,
        now,
        retain_for,
    ) by {
        let k = choose|k: int| 0 <= k < pruned.len() && pruned[k].url == pu && pruned[k].tasks.contains(t);
        lemma_filter_subset(mapped, |p: ProjectModel| p.tasks.len() > 0, k);
        let a = choose|a: int| 0 <= a < mapped.len() && mapped[a] == pruned[k];
        assert(mapped[a] == prune_project(known[a], fresh, now, retain_for));
        assert(known[a].url == pu);
        let j = choose|j: int| 0 <= j < pruned[k].tasks.len() && pruned[k].tasks[j] == t;
        lemma_filter_subset(
            known[a].tasks,
            |x: TaskModel| keep_task(x, fresh, known[a].url, now, retain_for),
            j,
        );
        assert(known[a].tasks.contains(t));
        assert(keep_task(t, fresh, pu, now, retain_for));
        assert(contains_task(known, pu, t));
    }
    assert forall|pu: Seq<char>, t: TaskModel|
        contains_task(known, pu, t) && keep_task(t, fresh, pu, now, retain_for) implies
        contains_task(pruned, pu, t) by {
        let a = choose|a: int| 0 <= a < known.len() && known[a].url == pu && known[a].tasks.contains(t);
        let j = choose|j: int| 0 <= j < known[a].tasks.len() && known[a].tasks[j] == t;
        let kept = known[a].tasks.filter(
            |x: TaskModel| keep_task(x, fresh, known[a].url, now, retain_for),
        );
        assert(kept.contains(known[a].tasks[j]));
        assert(mapped[a].tasks == kept);
        assert(mapped[a].tasks.len() > 0);
        assert(mapped.filter(|p: ProjectModel| p.tasks.len() > 0).contains(mapped[a]));
        let k = choose|k: int| 0 <= k < pruned.len() && pruned[k] == mapped[a];
        assert(pruned[k].url == pu && pruned[k].tasks.contains(t));
    }
    assert forall|k: int|
        0 <= k < pruned.len() implies described_in(known, #[trigger] pruned[k]) by {
        lemma_filter_subset(mapped, |p: ProjectModel| p.tasks.len() > 0, k);
        let a = choose|a: int| 0 <= a < mapped.len() && mapped[a] == pruned[k];
        assert(known[a].url == pruned[k].url && known[a].owner == pruned[k].owner
            && known[a].name == pruned[k].name);
    }
    assert forall|pu: Seq<char>|
        has_project(pruned, pu) implies has_project(fresh, pu) && has_project(known, pu) by {
        let k = choose|k: int| 0 <= k < pruned.len() && pruned[k].url == pu;
        lemma_filter_subset(mapped, |p: ProjectModel| p.tasks.len() > 0, k);
        let a = choose|a: int| 0 <= a < mapped.len() && mapped[a] == pruned[k];
        assert(known[a].url == pu);
        assert(has_project(known, pu));
        assert(pruned[k].tasks.len() > 0);
        assert(keep_task(pruned[k].tasks[0], fresh, pu, now, retain_for));
        let (x, y): (int, int) = choose|x: int, y: int|
            0 <= x < fresh.len() && fresh[x].url == pu && 0 <= y < fresh[x].tasks.len()
                && fresh[x].tasks[y].url == pruned[k].tasks[0].url;
        assert(has_project(fresh, pu));
    }
}

/// A baseline whose projects are all non-empty and whose tasks all satisfy
/// the keep condition passes a prune unchanged.
pub proof fn lemma_prune_identity(
    known: Seq<ProjectModel>,
    fresh: Seq<ProjectModel>,
    now: int,
    retain_for: int,
)
    requires
        forall|k: int| 0 <= k < known.len() ==> (#[trigger] known[k]).tasks.len() > 0,
        forall|k: int, j: int|
            0 <= k < known.len() && 0 <= j < known[k].tasks.len() ==> keep_task(
                #[trigger] known[k].tasks[j],
                fresh,
                known[k].url,
                now,
                retain_for,
            ),
    ensures
        prune_baseline(known, fresh, now, retain_for) == known,
{
    let mapped = known.map_values(|p: ProjectModel| prune_project(p, fresh, now, retain_for));
    assert forall|k: int| 0 <= k < known.len() implies mapped[k] == known[k] by {
        lemma_filter_all_true(
            known[k].tasks,
            |x: TaskModel| keep_task(x, fresh, known[k].url, now, retain_for),
        );
        assert(mapped[k] =~= known[k]);
    }
    assert(mapped =~= known);
    lemma_filter_all_true(known, |p: ProjectModel| p.tasks.len() > 0);
}

/// What one reconciliation returns: `new_known` holds exactly the pruned
/// survivors of the old baseline plus every fresh pair, survivors keep their
/// recorded values and newcomers are stamped with `now`; `to_notify` holds
/// exactly the fresh pairs that the pruned baseline did not hold, grouped
/// into non-empty projects described as in the snapshot and ordered by
/// their most recent task, most recent first.
pub open spec fn reconcile_post(
    known: Seq<ProjectModel>,
    fresh: Seq<ProjectModel>,
    retain_for: int,
    now: int,
    new_known: Seq<ProjectModel>,
    to_notify: Seq<ProjectModel>,
) -> bool {
    let pruned = prune_baseline(known, fresh, now, retain_for);
    &&& projects_wf(new_known)
    &&& forall|pu: Seq<char>, tu: Seq<char>|
        has_task(new_known, pu, tu) <==> has_task(pruned, pu, tu) || has_task(fresh, pu, tu)
    &&& forall|pu: Seq<char>, tu: Seq<char>|
        has_task(to_notify, pu, tu) <==> has_task(fresh, pu, tu) && !has_task(pruned, pu, tu)
    &&& forall|pu: Seq<char>, t: TaskModel|
        contains_task(pruned, pu, t) ==> contains_task(new_known, pu, t)
    &&& forall|pu: Seq<char>, t: TaskModel|
        contains_task(new_known, pu, t) ==> contains_task(pruned, pu, t) || fresh_stamped(
            fresh,
            pu,
            t,
            now,
        )
    &&& forall|pu: Seq<char>, t: TaskModel|
        contains_task(to_notify, pu, t) ==> fresh_stamped(fresh, pu, t, now)
    &&& to_notify.len() == 0 ==> new_known == pruned
    &&& forall|k: int|
        0 <= k < new_known.len() ==> (#[trigger] new_known[k]).tasks.len() > 0
    &&& forall|k: int|
        0 <= k < to_notify.len() ==> (#[trigger] to_notify[k]).tasks.len() > 0 && exists|a: int|
            0 <= a < fresh.len() && (#[trigger] fresh[a]).url == to_notify[k].url
                && fresh[a].owner == to_notify[k].owner && fresh[a].name == to_notify[k].name
    &&& sorted_by_latest_desc(to_notify)
    &&& projects_wf(to_notify)
    &&& forall|pu: Seq<char>| has_project(new_known, pu) ==> has_project(fresh, pu)
    &&& forall|pu: Seq<char>| has_project(to_notify, pu) ==> has_project(fresh, pu)
    &&& forall|k: int|
        0 <= k < new_known.len() ==> described_in(known, #[trigger] new_known[k]) || described_in(
            fresh,
            new_known[k],
        )
}

/// The two outputs of one reconciliation.
pub struct ResultingTasks {
    pub new_known: Vec<Project>,
    pub notify: Vec<Project>,
}

/// Filtering keeps keys pairwise distinct if they were pairwise distinct.
pub proof fn lemma_filter_distinct_keys<A>(
    s: Seq<A>,
    pred: spec_fn(A) -> bool,
    key: spec_fn(A) -> Seq<char>,
)
    requires
        forall|i: int, j: int| 0 <= i < j < s.len() ==> key(s[i]) != key(s[j]),
    ensures
        forall|i: int, j: int|
            0 <= i < j < s.filter(pred).len() ==> key(s.filter(pred)[i]) != key(s.filter(pred)[j]),
    decreases s.len(),
{
    reveal(Seq::filter);
    if s.len() > 0 {
        lemma_filter_distinct_keys(s.drop_last(), pred, key);
        let sub = s.drop_last().filter(pred);
        let out = s.filter(pred);
        assert forall|i: int, j: int|
            0 <= i < j < out.len() implies key(out[i]) != key(out[j]) by {
            if pred(s.last()) && j == out.len() - 1 && out.len() == sub.len() + 1 {
                lemma_filter_subset(s.drop_last(), pred, i);
                let k = choose|k: int|
                    0 <= k < s.drop_last().len() && s.drop_last()[k] == sub[i];
                assert(key(s[k]) != key(s.last()));
            }
        }
    }
}

/// A pruned baseline is well formed whenever the known baseline was.
pub proof fn lemma_prune_wf(
    known: Seq<ProjectModel>,
    fresh: Seq<ProjectModel>,
    now: int,
    retain_for: int,
)
    requires
        projects_wf(known),
    ensures
        projects_wf(prune_baseline(known, fresh, now, retain_for)),
{
    let pruned = prune_baseline(known, fresh, now, retain_for);
    let mapped = known.map_values(|p: ProjectModel| prune_project(p, fresh, now, retain_for));
    lemma_filter_distinct_keys(
        mapped,
        |p: ProjectModel| p.tasks.len() > 0,
        |p: ProjectModel| p.url,
    );
    assert forall|k: int| 0 <= k < pruned.len() implies project_wf(#[trigger] pruned[k]) by {
        lemma_filter_subset(mapped, |p: ProjectModel| p.tasks.len() > 0, k);
        let a = choose|a: int| 0 <= a < mapped.len() && mapped[a] == pruned[k];
        assert(project_wf(known[a]));
        lemma_filter_distinct_keys(
            known[a].tasks,
            |x: TaskModel| keep_task(x, fresh, known[a].url, now, retain_for),
            |x: TaskModel| x.url,
        );
        assert(pruned[k].tasks == known[a].tasks.filter(
            |x: TaskModel| keep_task(x, fresh, known[a].url, now, retain_for),
        ));
    }
}

/// One full reconciliation over already-fetched data: prune the known
/// baseline against the fresh snapshot and the retention window, merge
/// every fresh pair back in, collect the newly discovered tasks, and order
/// them for notification.
pub fn reconcile(known: &Vec<Project>, fresh: &Vec<Project>, retain_for: i64, now: i64) -> (r:
    ResultingTasks)
    requires
        retain_for >= 0,
        projects_wf(seq_view(known@)),
        projects_wf(seq_view(fresh@)),
    ensures
        reconcile_post(
            seq_view(known@),
            seq_view(fresh@),
            retain_for as int,
            now as int,
            seq_view(r.new_known@),
            seq_view(r.notify@),
        ),
{
    let ghost kv = seq_view(known@);
    let ghost fv = seq_view(fresh@);
    let ghost gnow = now as int;
    let ghost gret = retain_for as int;
    let pruned = prune_stale(known, fresh, now, retain_for);
    proof {
        lemma_prune_wf(kv, fv, gnow, gret);
        lemma_prune_membership(kv, fv, gnow, gret);
        let pvx = seq_view(pruned@);
        let mapped = kv.map_values(|p: ProjectModel| prune_project(p, fv, gnow, gret));
        assert forall|k: int|
            0 <= k < pvx.len() implies (#[trigger] pvx[k]).tasks.len() > 0 by {
            mapped.lemma_filter_pred(|p: ProjectModel| p.tasks.len() > 0, k);
        }
    }
    let ghost pv = seq_view(pruned@);
    let (new_known, raw_notify) = merge_fresh(pruned, fresh, now);
    let ghost rnv = seq_view(raw_notify@);
    let notify = sort_by_latest(raw_notify);
    proof {
        let nv = seq_view(notify@);
        let bv = seq_view(new_known@);
        lemma_permutation_preserves_pairs(nv, rnv);
        lemma_permutation_preserves_wf(rnv, nv);
        assert forall|k: int|
            0 <= k < bv.len() implies described_in(kv, #[trigger] bv[k]) || described_in(
            fv,
            bv[k],
        ) by {
            if described_in(pv, bv[k]) {
                let a = choose|a: int|
                    0 <= a < pv.len() && pv[a].url == bv[k].url && pv[a].owner == bv[k].owner
                        && pv[a].name == bv[k].name;
                assert(described_in(kv, pv[a]));
                let c = choose|c: int|
                    0 <= c < kv.len() && kv[c].url == pv[a].url && kv[c].owner == pv[a].owner
                        && kv[c].name == pv[a].name;
                assert(described_in(kv, bv[k]));
            }
        }
        assert forall|k: int|
            0 <= k < nv.len() implies (#[trigger] nv[k]).tasks.len() > 0 && exists|a: int|
                0 <= a < fv.len() && (#[trigger] fv[a]).url == nv[k].url
                    && fv[a].owner == nv[k].owner && fv[a].name == nv[k].name by {
            assert(nv.contains(nv[k]));
            assert(rnv.contains(nv[k]));
            let q = choose|q: int| 0 <= q < rnv.len() && rnv[q] == nv[k];
        }
        assert forall|pu: Seq<char>|
            #[trigger] has_project(bv, pu) implies has_project(fv, pu) by {
            if has_project(pv, pu) {
                assert(has_project(fv, pu));
            }
        }
        assert forall|pu: Seq<char>|
            #[trigger] has_project(nv, pu) implies has_project(fv, pu) by {}
        if nv.len() == 0 {
            assert(rnv.len() == 0);
            assert(bv == pv);
        }
    }
    ResultingTasks { new_known, notify }
}

} // verus!
