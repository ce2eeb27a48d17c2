use vstd::prelude::*;

use crate::github::{contains_task, has_task, projects_wf, ProjectModel};
use crate::reconcile::{
    fresh_stamped, keep_task, lemma_prune_identity, lemma_prune_membership, prune_baseline,
    reconcile_post, stamped,
};

verus! {

/// No double notification within the retention window: a task notified in
/// one cycle whose baseline was persisted, still shown upstream in the next
/// cycle before the window has elapsed, is not notified again.
pub proof fn lemma_no_double_notification(
    known: Seq<ProjectModel>,
    fresh1: Seq<ProjectModel>,
    fresh2: Seq<ProjectModel>,
    retain_for: int,
    now1: int,
    now2: int,
    b1: Seq<ProjectModel>,
    n1: Seq<ProjectModel>,
    b2: Seq<ProjectModel>,
    n2: Seq<ProjectModel>,
    pu: Seq<char>,
    tu: Seq<char>,
)
    requires
        now2 - retain_for <= now1,
        reconcile_post(known, fresh1, retain_for, now1, b1, n1),
        reconcile_post(b1, fresh2, retain_for, now2, b2, n2),
        has_task(n1, pu, tu),
        has_task(fresh2, pu, tu),
    ensures
        !has_task(n2, pu, tu),
{
    let pruned1 = prune_baseline(known, fresh1, now1, retain_for);
    let pruned2 = prune_baseline(b1, fresh2, now2, retain_for);
    assert(has_task(fresh1, pu, tu) && !has_task(pruned1, pu, tu));
    assert(has_task(b1, pu, tu));
    let (i, j): (int, int) = choose|i: int, j: int|
        0 <= i < b1.len() && b1[i].url == pu && 0 <= j < b1[i].tasks.len() && b1[i].tasks[j].url
            == tu;
    let t = b1[i].tasks[j];
    assert(b1[i].tasks.contains(t));
    assert(contains_task(b1, pu, t));
    if contains_task(pruned1, pu, t) {
        let a = choose|a: int|
            0 <= a < pruned1.len() && pruned1[a].url == pu && pruned1[a].tasks.contains(t);
        let b = choose|b: int| 0 <= b < pruned1[a].tasks.len() && pruned1[a].tasks[b] == t;
        assert(pruned1[a].tasks[b].url == tu);
        assert(has_task(pruned1, pu, tu));
        assert(false);
    }
    assert(t.observed_at == now1);
    assert(keep_task(t, fresh2, pu, now2, retain_for));
    lemma_prune_membership(b1, fresh2, now2, retain_for);
    assert(contains_task(pruned2, pu, t));
    let a = choose|a: int|
        0 <= a < pruned2.len() && pruned2[a].url == pu && pruned2[a].tasks.contains(t);
    let b = choose|b: int| 0 <= b < pruned2[a].tasks.len() && pruned2[a].tasks[b] == t;
    assert(pruned2[a].tasks[b].url == tu);
    assert(has_task(pruned2, pu, tu));
}

/// Retention re-arms notification: a known task that has aged past the
/// retention window but is still shown upstream loses its old baseline
/// record in the prune and comes back as newly discovered, so it stands in
/// the cycle's notification output.
pub proof fn lemma_retention_rearms(
    known: Seq<ProjectModel>,
    fresh: Seq<ProjectModel>,
    retain_for: int,
    now: int,
    b1: Seq<ProjectModel>,
    n1: Seq<ProjectModel>,
    pu: Seq<char>,
    tu: Seq<char>,
    i: int,
    j: int,
)
    requires
        projects_wf(known),
        reconcile_post(known, fresh, retain_for, now, b1, n1),
        0 <= i < known.len(),
        known[i].url == pu,
        0 <= j < known[i].tasks.len(),
        known[i].tasks[j].url == tu,
        known[i].tasks[j].observed_at < now - retain_for,
        has_task(fresh, pu, tu),
    ensures
        has_task(n1, pu, tu),
        !contains_task(prune_baseline(known, fresh, now, retain_for), pu, known[i].tasks[j]),
{
    let pruned = prune_baseline(known, fresh, now, retain_for);
    let told = known[i].tasks[j];
    lemma_prune_membership(known, fresh, now, retain_for);
    assert(!keep_task(told, fresh, pu, now, retain_for));
    assert(known[i].tasks.contains(told));
    assert(contains_task(known, pu, told));
    assert(!contains_task(pruned, pu, told));
    if has_task(pruned, pu, tu) {
        let (a, b): (int, int) = choose|a: int, b: int|
            0 <= a < pruned.len() && pruned[a].url == pu && 0 <= b < pruned[a].tasks.len()
                && pruned[a].tasks[b].url == tu;
        let t = pruned[a].tasks[b];
        assert(pruned[a].tasks.contains(t));
        assert(contains_task(pruned, pu, t));
        assert(contains_task(known, pu, t) && keep_task(t, fresh, pu, now, retain_for));
        let c = choose|c: int| 0 <= c < known.len() && known[c].url == pu && known[c].tasks.contains(t);
        assert(c == i);
        let d = choose|d: int| 0 <= d < known[i].tasks.len() && known[i].tasks[d] == t;
        assert(d == j);
        assert(t == told);
        assert(false);
    }
    assert(has_task(n1, pu, tu));
}

/// An idempotent no-op cycle: reconciling again with an unchanged snapshot,
/// starting from the baseline the first run produced, finds nothing to
/// notify and leaves the baseline exactly as it was — provided no recorded
/// task has aged past the retention window between the two runs. Without
/// that proviso the item fails: a task already older than the window at the
/// second run is evicted and notified again by design.
pub proof fn lemma_idempotent_cycle(
    known: Seq<ProjectModel>,
    fresh: Seq<ProjectModel>,
    retain_for: int,
    now1: int,
    now2: int,
    b1: Seq<ProjectModel>,
    n1: Seq<ProjectModel>,
    b2: Seq<ProjectModel>,
    n2: Seq<ProjectModel>,
)
    requires
        reconcile_post(known, fresh, retain_for, now1, b1, n1),
        reconcile_post(b1, fresh, retain_for, now2, b2, n2),
        forall|k: int, j: int|
            0 <= k < b1.len() && 0 <= j < b1[k].tasks.len()
                ==> (#[trigger] b1[k].tasks[j]).observed_at >= now2 - retain_for,
    ensures
        n2.len() == 0,
        b2 == b1,
{
    let pruned2 = prune_baseline(b1, fresh, now2, retain_for);
    lemma_prune_membership(known, fresh, now1, retain_for);
    lemma_prune_membership(b1, fresh, now2, retain_for);
    let pruned1 = prune_baseline(known, fresh, now1, retain_for);
    assert forall|k: int, j: int|
        0 <= k < b1.len() && 0 <= j < b1[k].tasks.len() implies keep_task(
        #[trigger] b1[k].tasks[j],
        fresh,
        b1[k].url,
        now2,
        retain_for,
    ) by {
        let t = b1[k].tasks[j];
        let pu = b1[k].url;
        assert(b1[k].tasks.contains(t));
        assert(contains_task(b1, pu, t));
        if contains_task(pruned1, pu, t) {
            assert(contains_task(known, pu, t) && keep_task(t, fresh, pu, now1, retain_for));
        } else {
            assert(fresh_stamped(fresh, pu, t, now1));
            let (a, b): (int, int) = choose|a: int, b: int|
                0 <= a < fresh.len() && 0 <= b < fresh[a].tasks.len() && fresh[a].url == pu && t
                    == stamped(fresh[a].tasks[b], now1);
            assert(fresh[a].tasks[b].url == t.url);
            assert(has_task(fresh, pu, t.url));
        }
    }
    lemma_prune_identity(b1, fresh, now2, retain_for);
    assert(pruned2 == b1);
    if n2.len() > 0 {
        let pu = n2[0].url;
        assert(n2[0].tasks.len() > 0);
        let tu = n2[0].tasks[0].url;
        assert(has_task(n2, pu, tu));
        assert(has_task(fresh, pu, tu) && !has_task(pruned2, pu, tu));
        assert(has_task(b1, pu, tu));
        assert(false);
    }
    assert(b2 == pruned2);
}

/// The common instance of the no-op cycle: both runs at the same instant.
/// Every task the first run left in its baseline is then still within the
/// (inclusive) window, so the second run changes nothing and notifies
/// nothing.
pub proof fn lemma_idempotent_cycle_same_instant(
    known: Seq<ProjectModel>,
    fresh: Seq<ProjectModel>,
    retain_for: int,
    now: int,
    b1: Seq<ProjectModel>,
    n1: Seq<ProjectModel>,
    b2: Seq<ProjectModel>,
    n2: Seq<ProjectModel>,
)
    requires
        retain_for >= 0,
        reconcile_post(known, fresh, retain_for, now, b1, n1),
        reconcile_post(b1, fresh, retain_for, now, b2, n2),
    ensures
        n2.len() == 0,
        b2 == b1,
{
    let pruned1 = prune_baseline(known, fresh, now, retain_for);
    lemma_prune_membership(known, fresh, now, retain_for);
    assert forall|k: int, j: int|
        0 <= k < b1.len() && 0 <= j < b1[k].tasks.len() implies (#[trigger] b1[k].tasks[j]).observed_at
        >= now - retain_for by {
        let t = b1[k].tasks[j];
        let pu = b1[k].url;
        assert(b1[k].tasks.contains(t));
        assert(contains_task(b1, pu, t));
        if contains_task(pruned1, pu, t) {
            assert(contains_task(known, pu, t) && keep_task(t, fresh, pu, now, retain_for));
        } else {
            assert(fresh_stamped(fresh, pu, t, now));
        }
    }
    lemma_idempotent_cycle(known, fresh, retain_for, now, now, b1, n1, b2, n2);
}

} // verus!
