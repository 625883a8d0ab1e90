use program_lifecycle::launch::force_launch;
use program_lifecycle::launch::launch_by_identifier;
use program_lifecycle::launch::launch_process;
use program_lifecycle::launch::Coordinator;
use program_lifecycle::launch::LookupError;
use program_lifecycle::probe::is_process_running;
use program_lifecycle::registry::Registry;

/// The executable name of the test process itself: a name that is
/// certainly running.
fn own_process_name() -> String {
    let mut sys = sysinfo::System::new();
    sys.refresh_processes(sysinfo::ProcessesToUpdate::All, true);
    let pid = sysinfo::get_current_pid().expect("current pid");
    sys.process(pid).expect("own process").name().to_string_lossy().into_owned()
}

#[test]
fn force_launch_resolves_program_args_and_workdir() {
    let sc = force_launch("C:\\d\\Game.exe -a -b", true);
    assert_eq!(sc.program, "C:\\d\\Game.exe");
    assert_eq!(sc.args, vec!["-a", "-b"]);
    assert_eq!(sc.working_dir.as_deref(), Some("C:\\d"));
}

#[test]
fn force_launch_undecomposable_is_best_effort() {
    let sc = force_launch("\"unclosed", false);
    assert_eq!(sc.program, "\"unclosed");
    assert!(sc.args.is_empty());
    assert_eq!(sc.working_dir, None);
}

#[test]
fn request_launch_spawns_when_not_running() {
    let mut coord = Coordinator::new();
    let mut sys = sysinfo::System::new();
    let action = coord.request_launch(&mut sys, "no_such_process_zqx81.exe --a", false);
    let sc = action.expect("should spawn");
    assert_eq!(sc.program, "no_such_process_zqx81.exe");
    assert_eq!(sc.args, vec!["--a"]);
    assert_eq!(coord.pending, None);
}

#[test]
fn request_launch_defers_when_running() {
    let name = own_process_name();
    let mut coord = Coordinator::new();
    let mut sys = sysinfo::System::new();
    assert!(is_process_running(&mut sys, &name));
    let action = coord.request_launch(&mut sys, &name, false);
    assert!(action.is_none());
    assert_eq!(coord.pending.as_deref(), Some(name.as_str()));
}

#[test]
fn second_pending_request_overwrites_first() {
    let name = own_process_name();
    let first = name.clone();
    let second = format!("{} --second", name);
    let mut coord = Coordinator::new();
    let mut sys = sysinfo::System::new();
    assert!(coord.request_launch(&mut sys, &first, false).is_none());
    assert!(coord.request_launch(&mut sys, &second, false).is_none());
    assert_eq!(coord.pending.as_deref(), Some(second.as_str()));
}

#[test]
fn resolve_confirmation_decline_discards() {
    let name = own_process_name();
    let mut coord = Coordinator::new();
    let mut sys = sysinfo::System::new();
    assert!(coord.request_launch(&mut sys, &name, false).is_none());
    let action = coord.resolve_confirmation(false, false);
    assert!(action.is_none());
    assert_eq!(coord.pending, None);
}

#[test]
fn resolve_confirmation_accept_force_launches_pending() {
    let name = own_process_name();
    let command = format!("{} --flag", name);
    let mut coord = Coordinator::new();
    let mut sys = sysinfo::System::new();
    assert!(coord.request_launch(&mut sys, &command, false).is_none());
    let action = coord.resolve_confirmation(true, false);
    let sc = action.expect("accept force-launches");
    assert_eq!(sc.program, name);
    assert_eq!(sc.args, vec!["--flag"]);
    assert_eq!(coord.pending, None);
}

#[test]
fn resolve_confirmation_with_nothing_pending_is_a_no_op() {
    let mut coord = Coordinator::new();
    assert!(coord.resolve_confirmation(true, false).is_none());
    assert_eq!(coord.pending, None);
}

#[test]
fn launch_process_is_the_protocol_entry() {
    let mut coord = Coordinator::new();
    let mut sys = sysinfo::System::new();
    let action = launch_process(&mut coord, &mut sys, "no_such_process_zqx81.exe", false);
    assert!(action.is_some());
    assert_eq!(coord.pending, None);
}

#[test]
fn launch_by_identifier_unknown_is_not_found() {
    let mut coord = Coordinator::new();
    let mut sys = sysinfo::System::new();
    let reg = Registry::new();
    let r = launch_by_identifier(&mut coord, &mut sys, &reg, "ghost", false);
    match r {
        Err(e) => assert_eq!(e, LookupError::NotFound),
        Ok(_) => panic!("lookup should fail"),
    }
}

#[test]
fn launch_by_identifier_launches_descriptor_command() {
    let mut coord = Coordinator::new();
    let mut sys = sysinfo::System::new();
    let mut reg = Registry::new();
    assert!(reg.add_program("no_such_process_zqx81.exe --x".to_string(), false));
    let id = reg.programs[0].identifier.clone();
    let r = launch_by_identifier(&mut coord, &mut sys, &reg, &id, false);
    let action = r.expect("descriptor exists");
    let sc = action.expect("not running, so it spawns");
    assert_eq!(sc.program, "no_such_process_zqx81.exe");
    assert_eq!(sc.args, vec!["--x"]);
}
