use program_lifecycle::boundary::on_demand_trigger_names;
use program_lifecycle::boundary::on_load_commands;
use program_lifecycle::boundary::trigger_name;
use program_lifecycle::boundary::trigger_target;
use program_lifecycle::probe::is_process_running;
use program_lifecycle::registry::LaunchTrigger;
use program_lifecycle::registry::ProgramDescriptor;
use program_lifecycle::registry::Registry;

#[test]
fn trigger_name_prefixes_identifier() {
    assert_eq!(trigger_name("Foo"), "LAUNCH_Foo");
    assert_eq!(trigger_name(""), "LAUNCH_");
}

#[test]
fn trigger_target_strips_prefix_on_press() {
    assert_eq!(trigger_target("LAUNCH_Foo", false).as_deref(), Some("Foo"));
    assert_eq!(trigger_target("LAUNCH_", false).as_deref(), Some(""));
}

#[test]
fn trigger_target_ignores_release_events() {
    assert_eq!(trigger_target("LAUNCH_Foo", true), None);
}

#[test]
fn trigger_target_ignores_foreign_identifiers() {
    assert_eq!(trigger_target("OTHER_Foo", false), None);
    assert_eq!(trigger_target("", false), None);
    assert_eq!(trigger_target("LAUNCH", false), None);
}

#[test]
fn trigger_round_trip_concrete() {
    let name = trigger_name("My_Game");
    assert_eq!(trigger_target(&name, false).as_deref(), Some("My_Game"));
}

#[test]
fn on_demand_descriptors_get_trigger_names() {
    let make = |id: &str, trigger: LaunchTrigger| ProgramDescriptor {
        identifier: id.to_string(),
        display_name: id.to_string(),
        command: format!("C:\\x\\{}.exe", id),
        trigger,
        close_on_unload: false,
        visible_in_launcher: true,
    };
    let reg = Registry {
        programs: vec![
            make("auto", LaunchTrigger::OnLoad),
            make("manual", LaunchTrigger::OnDemand),
            make("manual_too", LaunchTrigger::OnDemand),
        ],
        kill_list: vec![],
    };
    let names = on_demand_trigger_names(&reg);
    assert_eq!(names, vec!["LAUNCH_manual", "LAUNCH_manual_too"]);
    let commands = on_load_commands(&reg);
    assert_eq!(commands, vec!["C:\\x\\auto.exe"]);
}

#[test]
fn own_process_is_reported_running() {
    let mut sys = sysinfo::System::new();
    sys.refresh_processes(sysinfo::ProcessesToUpdate::All, true);
    let pid = sysinfo::get_current_pid().expect("current pid");
    let name = sys.process(pid).expect("own process").name().to_string_lossy().into_owned();
    let mut probe_sys = sysinfo::System::new();
    assert!(is_process_running(&mut probe_sys, &name));
    assert!(is_process_running(&mut probe_sys, &name.to_uppercase()));
    assert!(!is_process_running(&mut probe_sys, "no_such_process_zqx81.exe"));
}
