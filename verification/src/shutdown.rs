//! The shutdown sequencer: computes the final kill set at teardown and
//! issues terminations in a safety-ordered sequence.
//!
//! The plan partitions targets into a "safe" bucket, terminated first, and a
//! "host" bucket — the process the library itself runs inside — terminated
//! last, by pid. A safe-bucket match whose pid equals the current process's
//! pid is skipped even if its name matches, so the host is never taken down
//! before every other target has been signaled.

use vstd::prelude::*;

use crate::command::program_name_spec;
use crate::probe::ProcEntry;
use crate::probe::procs_of;
use crate::registry::DescView;
use crate::registry::Registry;
use crate::registry::desc_views;
use crate::text::eq_ignore_case;
use crate::text::str_eq_ignore_case;
use crate::text::views;

verus! {

/// The teardown targets, partitioned: "safe" names are terminated first,
/// the "host" bucket — names equal to the host's own process name — last.
#[derive(Clone, Debug)]
pub struct ShutdownPlan {
    pub safe: Vec<String>,
    pub host: Vec<String>,
}

/// Whether one of the names equals `name`, ASCII-case-insensitively.
pub open spec fn ci_contains(l: Seq<Seq<char>>, name: Seq<char>) -> bool {
    exists|i: int| 0 <= i < l.len() && eq_ignore_case(#[trigger] l[i], name)
}

/// Whether one of the strings in `v` equals `s`, ASCII-case-insensitively.
pub fn contains_str_ci(v: &Vec<String>, s: &str) -> (r: bool)
    ensures
        r == ci_contains(views(v@), s@),
{
    let n = v.len();
    let mut i: usize = 0;
    while i < n
        invariant
            i <= n,
            n == v@.len(),
            forall|j: int| 0 <= j < i ==> !eq_ignore_case(#[trigger] views(v@)[j], s@),
        decreases n - i,
    {
        if str_eq_ignore_case(v[i].as_str(), s) {
            assert(eq_ignore_case(views(v@)[i as int], s@));
            return true;
        }
        i += 1;
    }
    false
}

// --- computing the plan ---

/// The raw target names: the kill list, followed by the executable file
/// name of every descriptor marked close-on-unload whose command resolves.
pub open spec fn raw_targets(
    kill: Seq<Seq<char>>,
    progs: Seq<DescView>,
    flags: Seq<bool>,
) -> Seq<Seq<char>>
    decreases progs.len(),
{
    if progs.len() == 0 {
        kill
    } else {
        let init = raw_targets(kill, progs.drop_last(), flags.drop_last());
        let d = progs.last();
        if d.close_on_unload {
            match program_name_spec(d.command, flags.last()) {
                Some(n) => init.push(n),
                None => init,
            }
        } else {
            init
        }
    }
}

/// Adds one target name to the partitioned plan: skipped when a
/// case-insensitive duplicate is already in either bucket, placed in the
/// host bucket when it names the host, in the safe bucket otherwise.
pub open spec fn add_target(
    acc: (Seq<Seq<char>>, Seq<Seq<char>>),
    name: Seq<char>,
    host: Seq<char>,
) -> (Seq<Seq<char>>, Seq<Seq<char>>) {
    if ci_contains(acc.0, name) || ci_contains(acc.1, name) {
        acc
    } else if eq_ignore_case(name, host) {
        (acc.0, acc.1.push(name))
    } else {
        (acc.0.push(name), acc.1)
    }
}

/// The partitioned plan for a target list: each name added in order.
pub open spec fn plan_spec(targets: Seq<Seq<char>>, host: Seq<char>) -> (
    Seq<Seq<char>>,
    Seq<Seq<char>>,
)
    decreases targets.len(),
{
    if targets.len() == 0 {
        (Seq::empty(), Seq::empty())
    } else {
        add_target(plan_spec(targets.drop_last(), host), targets.last(), host)
    }
}

/// The plan's partition is clean: nothing in the safe bucket names the
/// host, and everything in the host bucket does.
pub proof fn lemma_plan_partition(targets: Seq<Seq<char>>, host: Seq<char>)
    ensures
        forall|i: int|
            0 <= i < plan_spec(targets, host).0.len() ==> !eq_ignore_case(
                #[trigger] plan_spec(targets, host).0[i],
                host,
            ),
        forall|i: int|
            0 <= i < plan_spec(targets, host).1.len() ==> eq_ignore_case(
                #[trigger] plan_spec(targets, host).1[i],
                host,
            ),
    decreases targets.len(),
{
    if targets.len() > 0 {
        lemma_plan_partition(targets.drop_last(), host);
        let prev = plan_spec(targets.drop_last(), host);
        let cur = plan_spec(targets, host);
        let name = targets.last();
        if ci_contains(prev.0, name) || ci_contains(prev.1, name) {
            assert(cur == prev);
        } else if eq_ignore_case(name, host) {
            assert(cur.1 == prev.1.push(name));
            assert forall|i: int| 0 <= i < cur.1.len() implies eq_ignore_case(
                #[trigger] cur.1[i],
                host,
            ) by {
                if i < prev.1.len() {
                    assert(cur.1[i] == prev.1[i]);
                }
            }
        } else {
            assert(cur.0 == prev.0.push(name));
            assert forall|i: int| 0 <= i < cur.0.len() implies !eq_ignore_case(
                #[trigger] cur.0[i],
                host,
            ) by {
                if i < prev.0.len() {
                    assert(cur.0[i] == prev.0[i]);
                }
            }
        }
    }
}

/// The plan covers exactly the targets: a name is matched
/// case-insensitively by the target list if and only if one of the two
/// buckets matches it.
pub proof fn lemma_plan_covers_targets(targets: Seq<Seq<char>>, host: Seq<char>)
    ensures
        forall|n: Seq<char>|
            #[trigger] ci_contains(targets, n) <==> (ci_contains(plan_spec(targets, host).0, n)
                || ci_contains(plan_spec(targets, host).1, n)),
    decreases targets.len(),
{
    if targets.len() > 0 {
        lemma_plan_covers_targets(targets.drop_last(), host);
        let prev_t = targets.drop_last();
        let prev = plan_spec(prev_t, host);
        let cur = plan_spec(targets, host);
        let last = targets.last();
        assert forall|n: Seq<char>| #[trigger] ci_contains(targets, n) implies (ci_contains(
            cur.0,
            n,
        ) || ci_contains(cur.1, n)) by {
            let i = choose|i: int| 0 <= i < targets.len() && eq_ignore_case(
                #[trigger] targets[i],
                n,
            );
            if i < targets.len() - 1 {
                assert(eq_ignore_case(prev_t[i], n));
                assert(ci_contains(prev_t, n));
                lemma_ci_grows(prev, cur, n);
            } else {
                if ci_contains(prev.0, last) || ci_contains(prev.1, last) {
                    lemma_ci_through(prev, last, n);
                    lemma_ci_grows(prev, cur, n);
                } else if eq_ignore_case(last, host) {
                    assert(cur.1.last() == last);
                    assert(eq_ignore_case(cur.1[cur.1.len() - 1], n));
                } else {
                    assert(cur.0.last() == last);
                    assert(eq_ignore_case(cur.0[cur.0.len() - 1], n));
                }
            }
        }
        assert forall|n: Seq<char>|
            ci_contains(cur.0, n) || ci_contains(cur.1, n) implies #[trigger] ci_contains(
            targets,
            n,
        ) by {
            if ci_contains(prev.0, n) || ci_contains(prev.1, n) {
                assert(ci_contains(prev_t, n));
                let i = choose|i: int| 0 <= i < prev_t.len() && eq_ignore_case(
                    #[trigger] prev_t[i],
                    n,
                );
                assert(eq_ignore_case(targets[i], n));
            } else {
                if ci_contains(cur.0, n) {
                    let i = choose|i: int| 0 <= i < cur.0.len() && eq_ignore_case(
                        #[trigger] cur.0[i],
                        n,
                    );
                    if i < prev.0.len() {
                        assert(eq_ignore_case(prev.0[i], n));
                    } else {
                        assert(cur.0[i] == last);
                        assert(eq_ignore_case(targets[targets.len() - 1], n));
                    }
                }
                if ci_contains(cur.1, n) {
                    let i = choose|i: int| 0 <= i < cur.1.len() && eq_ignore_case(
                        #[trigger] cur.1[i],
                        n,
                    );
                    if i < prev.1.len() {
                        assert(eq_ignore_case(prev.1[i], n));
                    } else {
                        assert(cur.1[i] == last);
                        assert(eq_ignore_case(targets[targets.len() - 1], n));
                    }
                }
            }
        }
    }
}

/// A name matched by one bucket of `prev` is matched by the same bucket
/// after one more target is added: buckets only grow.
proof fn lemma_ci_grows(
    prev: (Seq<Seq<char>>, Seq<Seq<char>>),
    cur: (Seq<Seq<char>>, Seq<Seq<char>>),
    n: Seq<char>,
)
    requires
        prev.0 == cur.0 || cur.0 == prev.0.push(cur.0.last()),
        prev.1 == cur.1 || cur.1 == prev.1.push(cur.1.last()),
        ci_contains(prev.0, n) || ci_contains(prev.1, n),
    ensures
        ci_contains(cur.0, n) || ci_contains(cur.1, n),
{
    if ci_contains(prev.0, n) {
        let i = choose|i: int| 0 <= i < prev.0.len() && eq_ignore_case(#[trigger] prev.0[i], n);
        assert(eq_ignore_case(cur.0[i], n));
    } else {
        let i = choose|i: int| 0 <= i < prev.1.len() && eq_ignore_case(#[trigger] prev.1[i], n);
        assert(eq_ignore_case(cur.1[i], n));
    }
}

/// Case-insensitive matching chains through an equal name: a bucket that
/// matches `mid` matches everything case-insensitively equal to `mid`.
proof fn lemma_ci_through(prev: (Seq<Seq<char>>, Seq<Seq<char>>), mid: Seq<char>, n: Seq<char>)
    requires
        ci_contains(prev.0, mid) || ci_contains(prev.1, mid),
        eq_ignore_case(mid, n),
    ensures
        ci_contains(prev.0, n) || ci_contains(prev.1, n),
{
    if ci_contains(prev.0, mid) {
        let i = choose|i: int| 0 <= i < prev.0.len() && eq_ignore_case(#[trigger] prev.0[i], mid);
        assert(eq_ignore_case(prev.0[i], n));
    } else {
        let i = choose|i: int| 0 <= i < prev.1.len() && eq_ignore_case(#[trigger] prev.1[i], mid);
        assert(eq_ignore_case(prev.1[i], n));
    }
}

/// The plan holds no case-insensitive duplicates: no two entries across
/// both buckets match each other.
pub proof fn lemma_plan_no_ci_duplicates(targets: Seq<Seq<char>>, host: Seq<char>)
    ensures
        forall|i: int, j: int|
            0 <= i < plan_spec(targets, host).0.len() && 0 <= j < plan_spec(
                targets,
                host,
            ).0.len() && i != j ==> !eq_ignore_case(
                #[trigger] plan_spec(targets, host).0[i],
                #[trigger] plan_spec(targets, host).0[j],
            ),
        forall|i: int, j: int|
            0 <= i < plan_spec(targets, host).1.len() && 0 <= j < plan_spec(
                targets,
                host,
            ).1.len() && i != j ==> !eq_ignore_case(
                #[trigger] plan_spec(targets, host).1[i],
                #[trigger] plan_spec(targets, host).1[j],
            ),
        forall|i: int, j: int|
            0 <= i < plan_spec(targets, host).0.len() && 0 <= j < plan_spec(targets, host).1.len()
                ==> !eq_ignore_case(
                #[trigger] plan_spec(targets, host).0[i],
                #[trigger] plan_spec(targets, host).1[j],
            ),
    decreases targets.len(),
{
    if targets.len() > 0 {
        lemma_plan_no_ci_duplicates(targets.drop_last(), host);
        let prev = plan_spec(targets.drop_last(), host);
        let cur = plan_spec(targets, host);
        let last = targets.last();
        if ci_contains(prev.0, last) || ci_contains(prev.1, last) {
            assert(cur == prev);
        } else if eq_ignore_case(last, host) {
            assert(cur.1 == prev.1.push(last));
            assert forall|i: int, j: int|
                0 <= i < cur.1.len() && 0 <= j < cur.1.len() && i != j implies !eq_ignore_case(
                #[trigger] cur.1[i],
                #[trigger] cur.1[j],
            ) by {
                if i < prev.1.len() && j < prev.1.len() {
                    assert(cur.1[i] == prev.1[i] && cur.1[j] == prev.1[j]);
                } else if j == prev.1.len() {
                    assert(cur.1[i] == prev.1[i]);
                    if eq_ignore_case(cur.1[i], last) {
                        assert(ci_contains(prev.1, last));
                    }
                } else {
                    assert(cur.1[j] == prev.1[j]);
                    if eq_ignore_case(cur.1[i], cur.1[j]) {
                        assert(eq_ignore_case(prev.1[j], last));
                        assert(ci_contains(prev.1, last));
                    }
                }
            }
            assert forall|i: int, j: int|
                0 <= i < cur.0.len() && 0 <= j < cur.1.len() implies !eq_ignore_case(
                #[trigger] cur.0[i],
                #[trigger] cur.1[j],
            ) by {
                assert(cur.0[i] == prev.0[i]);
                if j < prev.1.len() {
                    assert(cur.1[j] == prev.1[j]);
                } else {
                    if eq_ignore_case(cur.0[i], last) {
                        assert(ci_contains(prev.0, last));
                    }
                }
            }
        } else {
            assert(cur.0 == prev.0.push(last));
            assert forall|i: int, j: int|
                0 <= i < cur.0.len() && 0 <= j < cur.0.len() && i != j implies !eq_ignore_case(
                #[trigger] cur.0[i],
                #[trigger] cur.0[j],
            ) by {
                if i < prev.0.len() && j < prev.0.len() {
                    assert(cur.0[i] == prev.0[i] && cur.0[j] == prev.0[j]);
                } else if j == prev.0.len() {
                    assert(cur.0[i] == prev.0[i]);
                    if eq_ignore_case(cur.0[i], last) {
                        assert(ci_contains(prev.0, last));
                    }
                } else {
                    assert(cur.0[j] == prev.0[j]);
                    if eq_ignore_case(cur.0[i], cur.0[j]) {
                        assert(eq_ignore_case(prev.0[j], last));
                        assert(ci_contains(prev.0, last));
                    }
                }
            }
            assert forall|i: int, j: int|
                0 <= i < cur.0.len() && 0 <= j < cur.1.len() implies !eq_ignore_case(
                #[trigger] cur.0[i],
                #[trigger] cur.1[j],
            ) by {
                assert(cur.1[j] == prev.1[j]);
                if i < prev.0.len() {
                    assert(cur.0[i] == prev.0[i]);
                } else {
                    if eq_ignore_case(cur.0[i], cur.1[j]) {
                        assert(eq_ignore_case(prev.1[j], last));
                        assert(ci_contains(prev.1, last));
                    }
                }
            }
        }
    }
}

/// Computes the teardown plan: the union of the registry's kill list and
/// the executable names of its close-on-unload descriptors, deduplicated
/// case-insensitively, with the host's own process name partitioned out.
/// `marker_flags[i]` reports whether descriptor `i`'s marker prefix names a
/// file on disk (see `marker_candidate`).
pub fn compute_plan(reg: &Registry, marker_flags: &Vec<bool>, host_name: &str) -> (r:
    ShutdownPlan)
    requires
        marker_flags@.len() == reg.programs@.len(),
    ensures
        views(r.safe@) == plan_spec(
            raw_targets(views(reg.kill_list@), desc_views(reg.programs@), marker_flags@),
            host_name@,
        ).0,
        views(r.host@) == plan_spec(
            raw_targets(views(reg.kill_list@), desc_views(reg.programs@), marker_flags@),
            host_name@,
        ).1,
{
    let ghost gprogs = desc_views(reg.programs@);
    let mut targets: Vec<String> = Vec::new();
    let kn = reg.kill_list.len();
    let mut i: usize = 0;
    while i < kn
        invariant
            i <= kn,
            kn == reg.kill_list@.len(),
            targets@.len() == i,
            forall|j: int| 0 <= j < i ==> targets@[j]@ == reg.kill_list@[j]@,
        decreases kn - i,
    {
        targets.push(reg.kill_list[i].clone());
        i += 1;
    }
    proof {
        assert(views(targets@) =~= views(reg.kill_list@));
        assert(raw_targets(views(reg.kill_list@), gprogs.take(0), marker_flags@.take(0)) =~= views(
            reg.kill_list@,
        ));
    }
    let pn = reg.programs.len();
    let mut p: usize = 0;
    while p < pn
        invariant
            p <= pn,
            pn == reg.programs@.len(),
            marker_flags@.len() == pn,
            gprogs == desc_views(reg.programs@),
            views(targets@) == raw_targets(
                views(reg.kill_list@),
                gprogs.take(p as int),
                marker_flags@.take(p as int),
            ),
        decreases pn - p,
    {
        let ghost prev_targets = targets@;
        proof {
            assert(gprogs.take(p + 1).drop_last() =~= gprogs.take(p as int));
            assert(marker_flags@.take(p + 1).drop_last() =~= marker_flags@.take(p as int));
            assert(gprogs.take(p + 1).last() == gprogs[p as int]);
            assert(marker_flags@.take(p + 1).last() == marker_flags@[p as int]);
            assert(gprogs[p as int] == reg.programs@[p as int]@);
        }
        if reg.programs[p].close_on_unload {
            match crate::command::program_name(
                reg.programs[p].command.as_str(),
                marker_flags[p],
            ) {
                Some(n) => {
                    targets.push(n);
                    assert(views(targets@) =~= views(prev_targets).push(
                        targets@.last()@,
                    ));
                },
                None => {},
            }
        }
        p += 1;
    }
    proof {
        assert(gprogs.take(pn as int) =~= gprogs);
        assert(marker_flags@.take(pn as int) =~= marker_flags@);
    }
    let ghost all_targets = raw_targets(views(reg.kill_list@), gprogs, marker_flags@);
    let tn = targets.len();
    let mut safe: Vec<String> = Vec::new();
    let mut host: Vec<String> = Vec::new();
    let mut t: usize = 0;
    proof {
        assert(all_targets.take(0) =~= Seq::<Seq<char>>::empty());
        assert(views(safe@) =~= Seq::<Seq<char>>::empty());
        assert(views(host@) =~= Seq::<Seq<char>>::empty());
    }
    while t < tn
        invariant
            t <= tn,
            tn == targets@.len(),
            views(targets@) == all_targets,
            views(safe@) == plan_spec(all_targets.take(t as int), host_name@).0,
            views(host@) == plan_spec(all_targets.take(t as int), host_name@).1,
        decreases tn - t,
    {
        let ghost prev_safe = safe@;
        let ghost prev_host = host@;
        proof {
            assert(all_targets.take(t + 1).drop_last() =~= all_targets.take(t as int));
            assert(all_targets.take(t + 1).last() == all_targets[t as int]);
            assert(all_targets[t as int] == targets@[t as int]@);
        }
        let name = targets[t].clone();
        if contains_str_ci(&safe, name.as_str()) || contains_str_ci(&host, name.as_str()) {
        } else if str_eq_ignore_case(name.as_str(), host_name) {
            host.push(name);
            assert(views(host@) =~= views(prev_host).push(targets@[t as int]@));
        } else {
            safe.push(name);
            assert(views(safe@) =~= views(prev_safe).push(targets@[t as int]@));
        }
        t += 1;
    }
    proof {
        assert(all_targets.take(tn as int) =~= all_targets);
    }
    ShutdownPlan { safe, host }
}

// --- the kill sequence ---

/// One termination the sequencer issues: the target pid, and whether this
/// is the final, host-terminating step.
#[derive(Clone, Copy, PartialEq, Eq, Structural, Debug)]
pub struct KillAction {
    pub pid: u32,
    pub host: bool,
}

/// The terminations one safe target contributes: every snapshot entry
/// whose name matches it, in snapshot order, except the current process.
pub open spec fn safe_actions_for(
    entries: Seq<ProcEntry>,
    target: Seq<char>,
    self_pid: u32,
) -> Seq<KillAction>
    decreases entries.len(),
{
    if entries.len() == 0 {
        Seq::empty()
    } else {
        let init = safe_actions_for(entries.drop_last(), target, self_pid);
        let e = entries.last();
        if eq_ignore_case(e.name@, target) && e.pid != self_pid {
            init.push(KillAction { pid: e.pid, host: false })
        } else {
            init
        }
    }
}

/// The terminations of all safe targets, in target order.
pub open spec fn safe_actions(
    entries: Seq<ProcEntry>,
    targets: Seq<Seq<char>>,
    self_pid: u32,
) -> Seq<KillAction>
    decreases targets.len(),
{
    if targets.len() == 0 {
        Seq::empty()
    } else {
        safe_actions(entries, targets.drop_last(), self_pid) + safe_actions_for(
            entries,
            targets.last(),
            self_pid,
        )
    }
}

/// The whole teardown sequence: every safe termination first, then — only
/// when the host bucket is non-empty — the termination of the current
/// process itself, as the very last action.
pub open spec fn kill_sequence_spec(
    entries: Seq<ProcEntry>,
    safe_targets: Seq<Seq<char>>,
    host_nonempty: bool,
    self_pid: u32,
) -> Seq<KillAction> {
    safe_actions(entries, safe_targets, self_pid) + (if host_nonempty {
        seq![KillAction { pid: self_pid, host: true }]
    } else {
        Seq::empty()
    })
}

proof fn lemma_safe_actions_for_elems(entries: Seq<ProcEntry>, target: Seq<char>, self_pid: u32)
    ensures
        forall|k: int|
            0 <= k < safe_actions_for(entries, target, self_pid).len() ==> !(
            #[trigger] safe_actions_for(entries, target, self_pid)[k]).host && safe_actions_for(
                entries,
                target,
                self_pid,
            )[k].pid != self_pid && exists|e: int|
                0 <= e < entries.len() && (#[trigger] entries[e]).pid == safe_actions_for(
                    entries,
                    target,
                    self_pid,
                )[k].pid && eq_ignore_case(entries[e].name@, target),
    decreases entries.len(),
{
    if entries.len() > 0 {
        lemma_safe_actions_for_elems(entries.drop_last(), target, self_pid);
        let init = safe_actions_for(entries.drop_last(), target, self_pid);
        let whole = safe_actions_for(entries, target, self_pid);
        assert forall|k: int|
            0 <= k < whole.len() implies !(#[trigger] whole[k]).host && whole[k].pid != self_pid
            && exists|e: int|
            0 <= e < entries.len() && (#[trigger] entries[e]).pid == whole[k].pid
                && eq_ignore_case(entries[e].name@, target) by {
            if k < init.len() {
                let e = choose|e: int|
                    0 <= e < entries.drop_last().len() && (#[trigger] entries.drop_last()[e]).pid
                        == init[k].pid && eq_ignore_case(entries.drop_last()[e].name@, target);
                assert(entries[e] == entries.drop_last()[e]);
            } else {
                assert(entries[entries.len() - 1] == entries.last());
            }
        }
    }
}

/// Every safe action targets a snapshot entry that matches one of the safe
/// targets, is never the host step, and never the current process.
pub proof fn lemma_safe_actions_elems(
    entries: Seq<ProcEntry>,
    targets: Seq<Seq<char>>,
    self_pid: u32,
)
    ensures
        forall|k: int|
            0 <= k < safe_actions(entries, targets, self_pid).len() ==> !(
            #[trigger] safe_actions(entries, targets, self_pid)[k]).host && safe_actions(
                entries,
                targets,
                self_pid,
            )[k].pid != self_pid && exists|e: int|
                0 <= e < entries.len() && (#[trigger] entries[e]).pid == safe_actions(
                    entries,
                    targets,
                    self_pid,
                )[k].pid && ci_contains(targets, entries[e].name@),
    decreases targets.len(),
{
    if targets.len() > 0 {
        lemma_safe_actions_elems(entries, targets.drop_last(), self_pid);
        lemma_safe_actions_for_elems(entries, targets.last(), self_pid);
        let left = safe_actions(entries, targets.drop_last(), self_pid);
        let right = safe_actions_for(entries, targets.last(), self_pid);
        let whole = safe_actions(entries, targets, self_pid);
        assert forall|k: int|
            0 <= k < whole.len() implies !(#[trigger] whole[k]).host && whole[k].pid != self_pid
            && exists|e: int|
            0 <= e < entries.len() && (#[trigger] entries[e]).pid == whole[k].pid && ci_contains(
                targets,
                entries[e].name@,
            ) by {
            if k < left.len() {
                assert(whole[k] == left[k]);
                let e = choose|e: int|
                    0 <= e < entries.len() && (#[trigger] entries[e]).pid == left[k].pid
                        && ci_contains(targets.drop_last(), entries[e].name@);
                let t = choose|t: int|
                    0 <= t < targets.drop_last().len() && eq_ignore_case(
                        #[trigger] targets.drop_last()[t],
                        entries[e].name@,
                    );
                assert(eq_ignore_case(targets[t], entries[e].name@));
            } else {
                assert(whole[k] == right[k - left.len()]);
                let e = choose|e: int|
                    0 <= e < entries.len() && (#[trigger] entries[e]).pid == right[k
                        - left.len()].pid && eq_ignore_case(entries[e].name@, targets.last());
                assert(eq_ignore_case(targets[targets.len() - 1], entries[e].name@));
            }
        }
    }
}

proof fn lemma_safe_actions_for_complete(
    entries: Seq<ProcEntry>,
    target: Seq<char>,
    self_pid: u32,
    e: int,
)
    requires
        0 <= e < entries.len(),
        eq_ignore_case(entries[e].name@, target),
        entries[e].pid != self_pid,
    ensures
        exists|k: int|
            0 <= k < safe_actions_for(entries, target, self_pid).len() && (
            #[trigger] safe_actions_for(entries, target, self_pid)[k]).pid == entries[e].pid,
    decreases entries.len(),
{
    let whole = safe_actions_for(entries, target, self_pid);
    if e == entries.len() - 1 {
        assert(whole[whole.len() - 1].pid == entries[e].pid);
    } else {
        assert(entries.drop_last()[e] == entries[e]);
        lemma_safe_actions_for_complete(entries.drop_last(), target, self_pid, e);
        let init = safe_actions_for(entries.drop_last(), target, self_pid);
        let k = choose|k: int| 0 <= k < init.len() && (#[trigger] init[k]).pid == entries[e].pid;
        assert(whole[k].pid == entries[e].pid);
    }
}

/// Every snapshot entry that matches a safe target, other than the current
/// process, is terminated by the safe pass.
pub proof fn lemma_safe_actions_complete(
    entries: Seq<ProcEntry>,
    targets: Seq<Seq<char>>,
    self_pid: u32,
    t: int,
    e: int,
)
    requires
        0 <= t < targets.len(),
        0 <= e < entries.len(),
        eq_ignore_case(entries[e].name@, targets[t]),
        entries[e].pid != self_pid,
    ensures
        exists|k: int|
            0 <= k < safe_actions(entries, targets, self_pid).len() && (
            #[trigger] safe_actions(entries, targets, self_pid)[k]).pid == entries[e].pid,
    decreases targets.len(),
{
    let whole = safe_actions(entries, targets, self_pid);
    let left = safe_actions(entries, targets.drop_last(), self_pid);
    let right = safe_actions_for(entries, targets.last(), self_pid);
    if t == targets.len() - 1 {
        lemma_safe_actions_for_complete(entries, targets.last(), self_pid, e);
        let k = choose|k: int| 0 <= k < right.len() && (#[trigger] right[k]).pid == entries[e].pid;
        assert(whole[left.len() + k].pid == entries[e].pid);
    } else {
        assert(targets.drop_last()[t] == targets[t]);
        lemma_safe_actions_complete(entries, targets.drop_last(), self_pid, t, e);
        let k = choose|k: int| 0 <= k < left.len() && (#[trigger] left[k]).pid == entries[e].pid;
        assert(whole[k].pid == entries[e].pid);
    }
}

/// Shutdown ordering: in a teardown sequence the host termination, when it
/// happens at all, is exactly the last action, and every safe termination
/// strictly precedes it.
pub proof fn lemma_shutdown_ordering(
    entries: Seq<ProcEntry>,
    safe_targets: Seq<Seq<char>>,
    host_nonempty: bool,
    self_pid: u32,
    s: Seq<KillAction>,
)
    requires
        s == kill_sequence_spec(entries, safe_targets, host_nonempty, self_pid),
    ensures
        forall|i: int|
            0 <= i < s.len() && (#[trigger] s[i]).host ==> host_nonempty && i == s.len() - 1,
        host_nonempty ==> s.len() >= 1 && s.last() == (KillAction { pid: self_pid, host: true }),
{
    lemma_safe_actions_elems(entries, safe_targets, self_pid);
}

/// Self-exclusion: no safe termination in a teardown sequence ever targets
/// the current process's pid.
pub proof fn lemma_self_exclusion(
    entries: Seq<ProcEntry>,
    safe_targets: Seq<Seq<char>>,
    host_nonempty: bool,
    self_pid: u32,
    s: Seq<KillAction>,
)
    requires
        s == kill_sequence_spec(entries, safe_targets, host_nonempty, self_pid),
    ensures
        forall|i: int| 0 <= i < s.len() && !(#[trigger] s[i]).host ==> s[i].pid != self_pid,
{
    lemma_safe_actions_elems(entries, safe_targets, self_pid);
}

/// Computes the teardown sequence for one snapshot: for each safe target in
/// order, a termination of every matching snapshot process except the
/// current one; then, when the host bucket is non-empty, the host step.
pub fn plan_kill_actions(entries: &Vec<ProcEntry>, plan: &ShutdownPlan, self_pid: u32) -> (r:
    Vec<KillAction>)
    ensures
        r@ == kill_sequence_spec(
            entries@,
            views(plan.safe@),
            plan.host@.len() > 0,
            self_pid,
        ),
{
    let ghost gsafe = views(plan.safe@);
    let tn = plan.safe.len();
    let en = entries.len();
    let mut out: Vec<KillAction> = Vec::new();
    let mut t: usize = 0;
    proof {
        assert(gsafe.take(0) =~= Seq::<Seq<char>>::empty());
        assert(out@ =~= safe_actions(entries@, gsafe.take(0), self_pid));
    }
    while t < tn
        invariant
            t <= tn,
            tn == plan.safe@.len(),
            en == entries@.len(),
            gsafe == views(plan.safe@),
            out@ == safe_actions(entries@, gsafe.take(t as int), self_pid),
        decreases tn - t,
    {
        proof {
            assert(gsafe.take(t + 1).drop_last() =~= gsafe.take(t as int));
            assert(gsafe.take(t + 1).last() == gsafe[t as int]);
            assert(gsafe[t as int] == plan.safe@[t as int]@);
        }
        let ghost before_target = out@;
        let mut e: usize = 0;
        proof {
            assert(entries@.take(0) =~= Seq::<ProcEntry>::empty());
            assert(safe_actions_for(entries@.take(0), gsafe[t as int], self_pid) =~= Seq::<
                KillAction,
            >::empty());
            assert(out@ =~= before_target + safe_actions_for(
                entries@.take(0),
                gsafe[t as int],
                self_pid,
            ));
        }
        while e < en
            invariant
                e <= en,
                en == entries@.len(),
                gsafe == views(plan.safe@),
                t < tn,
                tn == plan.safe@.len(),
                gsafe[t as int] == plan.safe@[t as int]@,
                out@ == before_target + safe_actions_for(
                    entries@.take(e as int),
                    gsafe[t as int],
                    self_pid,
                ),
            decreases en - e,
        {
            proof {
                assert(entries@.take(e + 1).drop_last() =~= entries@.take(e as int));
                assert(entries@.take(e + 1).last() == entries@[e as int]);
            }
            if entries[e].pid != self_pid && str_eq_ignore_case(
                entries[e].name.as_str(),
                plan.safe[t].as_str(),
            ) {
                out.push(KillAction { pid: entries[e].pid, host: false });
            }
            proof {
                assert(out@ =~= before_target + safe_actions_for(
                    entries@.take(e + 1),
                    gsafe[t as int],
                    self_pid,
                ));
            }
            e += 1;
        }
        proof {
            assert(entries@.take(en as int) =~= entries@);
            assert(safe_actions(entries@, gsafe.take(t + 1), self_pid) == safe_actions(
                entries@,
                gsafe.take(t as int),
                self_pid,
            ) + safe_actions_for(entries@, gsafe[t as int], self_pid));
        }
        t += 1;
    }
    proof {
        assert(gsafe.take(tn as int) =~= gsafe);
    }
    if plan.host.len() > 0 {
        out.push(KillAction { pid: self_pid, host: true });
        assert(out@ =~= kill_sequence_spec(entries@, gsafe, true, self_pid));
    } else {
        assert(out@ =~= kill_sequence_spec(entries@, gsafe, false, self_pid));
    }
    out
}

/// Takes a fresh process snapshot and issues the teardown sequence for it:
/// every safe-target match except the current process first, then — only
/// when the plan's host bucket is non-empty — the current process itself,
/// last. Returns the issued sequence.
pub fn execute_plan(sys: &mut sysinfo::System, plan: &ShutdownPlan, self_pid: u32) -> (issued:
    Vec<KillAction>)
    ensures
        forall|i: int|
            0 <= i < issued@.len() && !(#[trigger] issued@[i]).host ==> issued@[i].pid != self_pid
                && procs_of(*final(sys)).contains_key(issued@[i].pid) && ci_contains(
                views(plan.safe@),
                procs_of(*final(sys))[issued@[i].pid],
            ),
        forall|i: int|
            0 <= i < issued@.len() && (#[trigger] issued@[i]).host ==> plan.host@.len() > 0 && i
                == issued@.len() - 1,
        plan.host@.len() > 0 ==> issued@.len() >= 1 && issued@.last() == (KillAction {
            pid: self_pid,
            host: true,
        }),
        forall|pid: u32|
            #[trigger] procs_of(*final(sys)).contains_key(pid) && ci_contains(
                views(plan.safe@),
                procs_of(*final(sys))[pid],
            ) && pid != self_pid ==> exists|i: int|
                0 <= i < issued@.len() && (#[trigger] issued@[i]).pid == pid && !issued@[i].host,
{
    crate::probe::refresh_processes(sys);
    let entries = crate::probe::list_processes(sys);
    let actions = plan_kill_actions(&entries, plan, self_pid);
    proof {
        lemma_shutdown_ordering(
            entries@,
            views(plan.safe@),
            plan.host@.len() > 0,
            self_pid,
            actions@,
        );
        lemma_self_exclusion(
            entries@,
            views(plan.safe@),
            plan.host@.len() > 0,
            self_pid,
            actions@,
        );
        lemma_safe_actions_elems(entries@, views(plan.safe@), self_pid);
        let m = procs_of(*sys);
        assert forall|i: int|
            0 <= i < actions@.len() && !(#[trigger] actions@[i]).host implies m.contains_key(
            actions@[i].pid,
        ) && ci_contains(views(plan.safe@), m[actions@[i].pid]) by {
            let sa = safe_actions(entries@, views(plan.safe@), self_pid);
            assert(actions@[i] == sa[i]);
            let e = choose|e: int|
                0 <= e < entries@.len() && (#[trigger] entries@[e]).pid == sa[i].pid
                    && ci_contains(views(plan.safe@), entries@[e].name@);
            assert(m.contains_key(entries@[e].pid));
            assert(m[entries@[e].pid] == entries@[e].name@);
        }
        assert forall|pid: u32|
            #[trigger] m.contains_key(pid) && ci_contains(views(plan.safe@), m[pid]) && pid
                != self_pid implies exists|i: int|
            0 <= i < actions@.len() && (#[trigger] actions@[i]).pid == pid
                && !actions@[i].host by {
            let e = choose|e: int| 0 <= e < entries@.len() && (#[trigger] entries@[e]).pid == pid;
            assert(entries@[e].name@ == m[pid]);
            let t = choose|t: int|
                0 <= t < views(plan.safe@).len() && eq_ignore_case(
                    #[trigger] views(plan.safe@)[t],
                    m[pid],
                );
            lemma_safe_actions_complete(entries@, views(plan.safe@), self_pid, t, e);
            let sa = safe_actions(entries@, views(plan.safe@), self_pid);
            let k = choose|k: int| 0 <= k < sa.len() && (#[trigger] sa[k]).pid == pid;
            assert(actions@[k] == sa[k]);
            assert(!actions@[k].host);
        }
    }
    let an = actions.len();
    let mut i: usize = 0;
    while i < an
        invariant
            i <= an,
            an == actions@.len(),
        decreases an - i,
    {
        crate::probe::kill_pid(sys, actions[i].pid);
        i += 1;
    }
    actions
}

} // verus!
