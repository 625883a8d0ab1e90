use program_lifecycle::probe::find_all;
use program_lifecycle::probe::is_running_in;
use program_lifecycle::probe::ProcEntry;

fn entry(name: &str, pid: u32) -> ProcEntry {
    ProcEntry { name: name.to_string(), pid }
}

#[test]
fn is_running_in_matches_exactly_and_case_insensitively() {
    let entries = vec![entry("Game.exe", 10), entry("tool.exe", 11)];
    assert!(is_running_in(&entries, "game.EXE"));
    assert!(is_running_in(&entries, "tool.exe"));
    // Exact matching, never a substring match.
    assert!(!is_running_in(&entries, "Game"));
    assert!(!is_running_in(&entries, "ame.exe"));
    assert!(!is_running_in(&entries, ""));
}

#[test]
fn find_all_lists_every_match_of_own_name() {
    let mut sys = sysinfo::System::new();
    sys.refresh_processes(sysinfo::ProcessesToUpdate::All, true);
    let pid = sysinfo::get_current_pid().expect("current pid");
    let name = sys.process(pid).expect("own process").name().to_string_lossy().into_owned();

    let mut probe_sys = sysinfo::System::new();
    let matches = find_all(&mut probe_sys, &name);
    assert!(!matches.is_empty());
    assert!(matches.iter().any(|e| e.pid == pid.as_u32()));
    for e in &matches {
        assert!(e.name.eq_ignore_ascii_case(&name));
    }
}

#[test]
fn find_all_of_absent_name_is_empty() {
    let mut sys = sysinfo::System::new();
    let matches = find_all(&mut sys, "no_such_process_zqx81.exe");
    assert!(matches.is_empty());
}
