//! Process probe: queries of the live OS process table, through `sysinfo`.
//!
//! The snapshot type is opaque; what it holds after a refresh depends on the
//! machine, so the wrappers state only how their results relate to the
//! snapshot's contents, named by `procs_of`. The matching logic itself —
//! exact, ASCII-case-insensitive name comparison — is verified.

use vstd::prelude::*;

use crate::text::eq_ignore_case;
use crate::text::str_eq_ignore_case;

verus! {

/// `sysinfo::System`, the OS process-table snapshot, declared so it can
/// stand in signatures; the library reads it only through the wrappers in
/// this module.
#[verifier::external_type_specification]
#[verifier::external_body]
pub struct ExSystem(sysinfo::System);

/// One process of a snapshot: its executable name and its process id.
#[derive(Clone, Debug)]
pub struct ProcEntry {
    pub name: String,
    pub pid: u32,
}

/// What a snapshot holds: the process table the OS reported when the
/// snapshot was last refreshed, as a map from process id to executable
/// name.
pub uninterp spec fn procs_of(s: sysinfo::System) -> Map<u32, Seq<char>>;

/// Relies on `sysinfo::System::refresh_processes`: re-reads the whole OS
/// process table into the snapshot, dropping dead processes. What it holds
/// afterwards is whatever the OS reported.
#[verifier::external_body]
pub(crate) fn refresh_processes(s: &mut sysinfo::System) {
    s.refresh_processes(sysinfo::ProcessesToUpdate::All, true);
}

/// Relies on `sysinfo::System::processes`, `Process::name` and
/// `Process::pid`: lists the snapshot's processes, each as its executable
/// name and pid. The table is keyed by pid, so each pid appears once; the
/// order of the walk is not specified.
#[verifier::external_body]
pub(crate) fn list_processes(s: &sysinfo::System) -> (r: Vec<ProcEntry>)
    ensures
        forall|i: int|
            0 <= i < r@.len() ==> procs_of(*s).contains_key((#[trigger] r@[i]).pid)
                && procs_of(*s)[r@[i].pid] == r@[i].name@,
        forall|pid: u32|
            #[trigger] procs_of(*s).contains_key(pid) ==> exists|i: int|
                0 <= i < r@.len() && (#[trigger] r@[i]).pid == pid,
        forall|i: int, j: int|
            0 <= i < r@.len() && 0 <= j < r@.len() && i != j ==> (#[trigger] r@[i]).pid != (
            #[trigger] r@[j]).pid,
{
    let mut out = Vec::new();
    for (pid, p) in s.processes() {
        out.push(ProcEntry { name: p.name().to_string_lossy().into_owned(), pid: pid.as_u32() });
    }
    out
}

/// Relies on `sysinfo::System::process` and `Process::kill`: sends the
/// platform's kill signal to the given pid. Returns true only when the pid
/// was in the snapshot and the signal was sent.
#[verifier::external_body]
pub(crate) fn kill_pid(s: &sysinfo::System, pid: u32) -> (r: bool)
    ensures
        r ==> procs_of(*s).contains_key(pid),
{
    match s.process(sysinfo::Pid::from_u32(pid)) {
        Some(p) => p.kill(),
        None => false,
    }
}

/// Whether the snapshot contents hold a process whose name equals `name`,
/// ASCII-case-insensitively.
pub open spec fn name_in_procs(m: Map<u32, Seq<char>>, name: Seq<char>) -> bool {
    exists|pid: u32| #[trigger] m.contains_key(pid) && eq_ignore_case(m[pid], name)
}

/// Whether one of the listed entries carries the given name,
/// ASCII-case-insensitively.
pub fn is_running_in(entries: &Vec<ProcEntry>, name: &str) -> (r: bool)
    ensures
        r == exists|i: int|
            0 <= i < entries@.len() && eq_ignore_case((#[trigger] entries@[i]).name@, name@),
{
    let n = entries.len();
    let mut i: usize = 0;
    while i < n
        invariant
            i <= n,
            n == entries@.len(),
            forall|j: int| 0 <= j < i ==> !eq_ignore_case((#[trigger] entries@[j]).name@, name@),
        decreases n - i,
    {
        if str_eq_ignore_case(entries[i].name.as_str(), name) {
            return true;
        }
        i += 1;
    }
    false
}

/// Refreshes the snapshot and reports whether a process with the given
/// executable name is currently running. Matching is exact and
/// ASCII-case-insensitive, never a substring match.
pub fn is_process_running(sys: &mut sysinfo::System, process_name: &str) -> (r: bool)
    ensures
        r == name_in_procs(procs_of(*final(sys)), process_name@),
{
    refresh_processes(sys);
    let entries = list_processes(sys);
    let r = is_running_in(&entries, process_name);
    proof {
        let m = procs_of(*sys);
        if r {
            let i = choose|i: int|
                0 <= i < entries@.len() && eq_ignore_case(
                    (#[trigger] entries@[i]).name@,
                    process_name@,
                );
            assert(m.contains_key(entries@[i].pid) && eq_ignore_case(
                m[entries@[i].pid],
                process_name@,
            ));
        }
        if name_in_procs(m, process_name@) {
            let pid = choose|pid: u32|
                #[trigger] m.contains_key(pid) && eq_ignore_case(m[pid], process_name@);
            let i = choose|i: int| 0 <= i < entries@.len() && (#[trigger] entries@[i]).pid == pid;
            assert(eq_ignore_case(entries@[i].name@, process_name@));
        }
    }
    r
}

/// Refreshes the snapshot and lists every running process whose executable
/// name equals `process_name`, ASCII-case-insensitively.
pub fn find_all(sys: &mut sysinfo::System, process_name: &str) -> (r: Vec<ProcEntry>)
    ensures
        forall|i: int|
            0 <= i < r@.len() ==> procs_of(*final(sys)).contains_key((#[trigger] r@[i]).pid)
                && procs_of(*final(sys))[r@[i].pid] == r@[i].name@ && eq_ignore_case(
                r@[i].name@,
                process_name@,
            ),
        forall|pid: u32|
            #[trigger] procs_of(*final(sys)).contains_key(pid) && eq_ignore_case(
                procs_of(*final(sys))[pid],
                process_name@,
            ) ==> exists|i: int| 0 <= i < r@.len() && (#[trigger] r@[i]).pid == pid,
        forall|i: int, j: int|
            0 <= i < r@.len() && 0 <= j < r@.len() && i != j ==> (#[trigger] r@[i]).pid != (
            #[trigger] r@[j]).pid,
{
    refresh_processes(sys);
    let entries = list_processes(sys);
    let n = entries.len();
    let mut out: Vec<ProcEntry> = Vec::new();
    let mut i: usize = 0;
    while i < n
        invariant
            i <= n,
            n == entries@.len(),
            forall|k: int|
                0 <= k < entries@.len() ==> procs_of(*sys).contains_key(
                    (#[trigger] entries@[k]).pid,
                ) && procs_of(*sys)[entries@[k].pid] == entries@[k].name@,
            forall|pid: u32|
                #[trigger] procs_of(*sys).contains_key(pid) ==> exists|k: int|
                    0 <= k < entries@.len() && (#[trigger] entries@[k]).pid == pid,
            forall|k: int, l: int|
                0 <= k < entries@.len() && 0 <= l < entries@.len() && k != l ==> (
                #[trigger] entries@[k]).pid != (#[trigger] entries@[l]).pid,
            forall|k: int|
                0 <= k < out@.len() ==> exists|l: int|
                    0 <= l < i && entries@[l] == (#[trigger] out@[k]),
            forall|k: int|
                0 <= k < out@.len() ==> eq_ignore_case((#[trigger] out@[k]).name@, process_name@),
            forall|l: int|
                0 <= l < i && eq_ignore_case((#[trigger] entries@[l]).name@, process_name@)
                    ==> exists|k: int| 0 <= k < out@.len() && (#[trigger] out@[k]).pid
                    == entries@[l].pid,
            forall|k: int, l: int|
                0 <= k < out@.len() && 0 <= l < out@.len() && k != l ==> (#[trigger] out@[k]).pid
                    != (#[trigger] out@[l]).pid,
        decreases n - i,
    {
        let ghost prev_out = out@;
        let matched = str_eq_ignore_case(entries[i].name.as_str(), process_name);
        if matched {
            let e = ProcEntry { name: entries[i].name.clone(), pid: entries[i].pid };
            assert(e == entries@[i as int]);
            out.push(e);
        }
        proof {
            assert forall|l: int|
                0 <= l < i + 1 && eq_ignore_case(
                    (#[trigger] entries@[l]).name@,
                    process_name@,
                ) implies exists|k: int|
                0 <= k < out@.len() && (#[trigger] out@[k]).pid == entries@[l].pid by {
                if l < i {
                    let k = choose|k: int|
                        0 <= k < prev_out.len() && (#[trigger] prev_out[k]).pid == entries@[
                            l
                        ].pid;
                    assert(out@[k].pid == entries@[l].pid);
                } else {
                    assert(out@[out@.len() - 1].pid == entries@[i as int].pid);
                }
            }
        }
        i += 1;
    }
    proof {
        assert forall|k: int|
            0 <= k < out@.len() implies procs_of(*sys).contains_key((#[trigger] out@[k]).pid)
            && procs_of(*sys)[out@[k].pid] == out@[k].name@ by {
            let l = choose|l: int| 0 <= l < i && entries@[l] == (#[trigger] out@[k]);
            assert(procs_of(*sys).contains_key(entries@[l].pid));
        }
        assert forall|pid: u32|
            #[trigger] procs_of(*sys).contains_key(pid) && eq_ignore_case(
                procs_of(*sys)[pid],
                process_name@,
            ) implies exists|k: int| 0 <= k < out@.len() && (#[trigger] out@[k]).pid == pid by {
            let l = choose|l: int| 0 <= l < entries@.len() && (#[trigger] entries@[l]).pid == pid;
            assert(eq_ignore_case(entries@[l].name@, process_name@));
        }
    }
    out
}

} // verus!
