use program_lifecycle::probe::ProcEntry;
use program_lifecycle::registry::LaunchTrigger;
use program_lifecycle::registry::ProgramDescriptor;
use program_lifecycle::registry::Registry;
use program_lifecycle::shutdown::compute_plan;
use program_lifecycle::shutdown::execute_plan;
use program_lifecycle::shutdown::plan_kill_actions;
use program_lifecycle::shutdown::KillAction;
use program_lifecycle::shutdown::ShutdownPlan;

fn closer(id: &str, command: &str) -> ProgramDescriptor {
    ProgramDescriptor {
        identifier: id.to_string(),
        display_name: id.to_string(),
        command: command.to_string(),
        trigger: LaunchTrigger::OnLoad,
        close_on_unload: true,
        visible_in_launcher: true,
    }
}

fn entry(name: &str, pid: u32) -> ProcEntry {
    ProcEntry { name: name.to_string(), pid }
}

#[test]
fn plan_unions_kill_list_and_closers() {
    let reg = Registry {
        programs: vec![closer("B", "C:\\B.exe")],
        kill_list: vec!["A.exe".to_string()],
    };
    let plan = compute_plan(&reg, &vec![true], "host.exe");
    assert_eq!(plan.safe, vec!["A.exe", "B.exe"]);
    assert!(plan.host.is_empty());
}

#[test]
fn plan_dedups_case_insensitively() {
    let reg = Registry {
        programs: vec![closer("A", "C:\\a.EXE")],
        kill_list: vec!["A.exe".to_string(), "a.exe".to_string()],
    };
    let plan = compute_plan(&reg, &vec![true], "host.exe");
    assert_eq!(plan.safe, vec!["A.exe"]);
}

#[test]
fn plan_partitions_host_name_out() {
    let reg = Registry {
        programs: vec![],
        kill_list: vec!["Host.exe".to_string(), "A.exe".to_string()],
    };
    let plan = compute_plan(&reg, &vec![], "host.exe");
    assert_eq!(plan.safe, vec!["A.exe"]);
    assert_eq!(plan.host, vec!["Host.exe"]);
}

#[test]
fn plan_skips_descriptor_without_name() {
    let reg = Registry { programs: vec![closer("E", "")], kill_list: vec!["A.exe".to_string()] };
    let plan = compute_plan(&reg, &vec![false], "host.exe");
    assert_eq!(plan.safe, vec!["A.exe"]);
}

#[test]
fn kill_sequence_orders_safe_before_host() {
    let entries = vec![
        entry("a.exe", 1),
        entry("host.exe", 2),
        entry("b.exe", 3),
        entry("A.EXE", 4),
    ];
    let plan = ShutdownPlan {
        safe: vec!["a.exe".to_string(), "b.exe".to_string()],
        host: vec!["host.exe".to_string()],
    };
    let actions = plan_kill_actions(&entries, &plan, 2);
    assert_eq!(
        actions,
        vec![
            KillAction { pid: 1, host: false },
            KillAction { pid: 4, host: false },
            KillAction { pid: 3, host: false },
            KillAction { pid: 2, host: true },
        ]
    );
    // The host step is the very last action.
    for (i, a) in actions.iter().enumerate() {
        assert_eq!(a.host, i == actions.len() - 1);
    }
}

#[test]
fn kill_sequence_excludes_self_from_safe_pass() {
    let entries = vec![entry("a.exe", 7), entry("a.exe", 5)];
    let plan =
        ShutdownPlan { safe: vec!["a.exe".to_string()], host: vec!["host.exe".to_string()] };
    let actions = plan_kill_actions(&entries, &plan, 5);
    assert_eq!(
        actions,
        vec![KillAction { pid: 7, host: false }, KillAction { pid: 5, host: true }]
    );
}

#[test]
fn kill_sequence_without_host_bucket_has_no_host_step() {
    let entries = vec![entry("a.exe", 7)];
    let plan = ShutdownPlan { safe: vec!["a.exe".to_string()], host: vec![] };
    let actions = plan_kill_actions(&entries, &plan, 5);
    assert_eq!(actions, vec![KillAction { pid: 7, host: false }]);
}

#[test]
fn execute_plan_on_absent_targets_issues_nothing() {
    let mut sys = sysinfo::System::new();
    let plan = ShutdownPlan {
        safe: vec!["no_such_process_zqx81.exe".to_string()],
        host: vec![],
    };
    let issued = execute_plan(&mut sys, &plan, 1);
    assert!(issued.is_empty());
}
