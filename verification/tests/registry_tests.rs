use program_lifecycle::registry::default_true;
use program_lifecycle::registry::migrate_config;
use program_lifecycle::registry::migrate_descriptor;
use program_lifecycle::registry::FsProbe;
use program_lifecycle::registry::LaunchTrigger;
use program_lifecycle::registry::LegacyDescriptor;
use program_lifecycle::registry::ProgramDescriptor;
use program_lifecycle::registry::Registry;

fn legacy(name: &str, display: &str, command: &str) -> LegacyDescriptor {
    LegacyDescriptor {
        name: name.to_string(),
        display_name: display.to_string(),
        command: command.to_string(),
        trigger: LaunchTrigger::OnLoad,
        close_on_unload: false,
        visible_in_launcher: true,
    }
}

fn descriptor(id: &str, display: &str, command: &str) -> ProgramDescriptor {
    ProgramDescriptor {
        identifier: id.to_string(),
        display_name: display.to_string(),
        command: command.to_string(),
        trigger: LaunchTrigger::OnLoad,
        close_on_unload: false,
        visible_in_launcher: true,
    }
}

#[test]
fn default_visibility_is_on() {
    assert!(default_true());
}

#[test]
fn migrate_strips_extension_and_sanitizes() {
    let d = migrate_descriptor(&legacy("Foo.exe", "", "C:\\a\\Foo.exe"), true);
    assert_eq!(d.identifier, "Foo");
    assert_eq!(d.display_name, "Foo.exe");
    assert_eq!(d.command, "C:\\a\\Foo.exe");
}

#[test]
fn migrate_sanitizes_spaces_in_name() {
    let d = migrate_descriptor(&legacy("My Game.exe", "Kept", "C:\\g\\My Game.exe"), true);
    assert_eq!(d.identifier, "My_Game");
    assert_eq!(d.display_name, "Kept");
}

#[test]
fn migrate_display_falls_back_to_identifier() {
    // An empty command resolves no file name, so the display name comes
    // from the migrated identifier.
    let d = migrate_descriptor(&legacy("Tool", "", ""), false);
    assert_eq!(d.identifier, "Tool");
    assert_eq!(d.display_name, "Tool");
}

#[test]
fn migrate_config_uniquifies_in_order() {
    let legacies = vec![
        legacy("Foo.exe", "", "C:\\a\\Foo.exe"),
        legacy("Foo.bat", "", "C:\\b\\Foo.bat"),
        legacy("Foo", "", "C:\\c\\Foo.exe"),
    ];
    let flags = vec![true, true, true];
    let reg = migrate_config(&legacies, vec!["K.exe".to_string()], &flags);
    assert_eq!(reg.programs.len(), 3);
    assert_eq!(reg.programs[0].identifier, "Foo");
    assert_eq!(reg.programs[1].identifier, "Foo_2");
    assert_eq!(reg.programs[2].identifier, "Foo_3");
    assert_eq!(reg.kill_list, vec!["K.exe"]);
}

#[test]
fn validate_drops_missing_executable() {
    let mut reg = Registry { programs: vec![descriptor("g", "g", "somegame")], kill_list: vec![] };
    let probes = vec![FsProbe { marker_is_file: false, exe_exists: false }];
    let changed = reg.validate_and_repair(&probes);
    assert!(changed);
    assert!(reg.programs.is_empty());
}

#[test]
fn validate_keeps_existing_executable_unchanged() {
    let mut reg = Registry {
        programs: vec![descriptor("Game.exe", "Game", "C:\\d\\Game.exe")],
        kill_list: vec![],
    };
    let probes = vec![FsProbe { marker_is_file: true, exe_exists: true }];
    let changed = reg.validate_and_repair(&probes);
    assert!(!changed);
    assert_eq!(reg.programs.len(), 1);
    assert_eq!(reg.programs[0].identifier, "Game.exe");
    assert_eq!(reg.programs[0].display_name, "Game");
}

#[test]
fn validate_backfills_empty_fields() {
    let mut reg = Registry {
        programs: vec![descriptor("", "", "C:\\a\\Tool.exe")],
        kill_list: vec![],
    };
    let probes = vec![FsProbe { marker_is_file: true, exe_exists: true }];
    let changed = reg.validate_and_repair(&probes);
    assert!(changed);
    assert_eq!(reg.programs[0].display_name, "Tool.exe");
    assert_eq!(reg.programs[0].identifier, "Tool.exe");
}

#[test]
fn validate_falls_back_to_fixed_identifier() {
    // Nothing to derive a name from: empty identifier, empty display name,
    // and a command that does not decompose.
    let mut reg = Registry {
        programs: vec![descriptor("", "", ""), descriptor("", "", "")],
        kill_list: vec![],
    };
    let probes = vec![
        FsProbe { marker_is_file: false, exe_exists: false },
        FsProbe { marker_is_file: false, exe_exists: false },
    ];
    let changed = reg.validate_and_repair(&probes);
    assert!(changed);
    assert_eq!(reg.programs[0].identifier, "program");
    assert_eq!(reg.programs[1].identifier, "program_2");
}

#[test]
fn validate_reuniquifies_duplicates() {
    let mut reg = Registry {
        programs: vec![
            descriptor("A", "one", "C:\\x\\A.exe"),
            descriptor("A", "two", "C:\\y\\A.exe"),
        ],
        kill_list: vec![],
    };
    let probes = vec![
        FsProbe { marker_is_file: true, exe_exists: true },
        FsProbe { marker_is_file: true, exe_exists: true },
    ];
    let changed = reg.validate_and_repair(&probes);
    assert!(changed);
    assert_eq!(reg.programs[0].identifier, "A");
    assert_eq!(reg.programs[1].identifier, "A_2");
}

#[test]
fn add_program_builds_descriptor() {
    let mut reg = Registry::new();
    assert!(reg.add_program("C:\\g\\Game.exe".to_string(), true));
    assert_eq!(reg.programs.len(), 1);
    assert_eq!(reg.programs[0].identifier, "Game.exe");
    assert_eq!(reg.programs[0].display_name, "Game.exe");
    assert_eq!(reg.programs[0].trigger, LaunchTrigger::OnLoad);
    assert!(!reg.programs[0].close_on_unload);
    assert!(reg.programs[0].visible_in_launcher);
}

#[test]
fn add_program_uniquifies_second_copy() {
    let mut reg = Registry::new();
    assert!(reg.add_program("C:\\g\\Game.exe".to_string(), true));
    assert!(reg.add_program("C:\\h\\Game.exe".to_string(), true));
    assert_eq!(reg.programs[1].identifier, "Game.exe_2");
}

#[test]
fn add_program_rejects_unresolvable_command() {
    let mut reg = Registry::new();
    assert!(!reg.add_program("".to_string(), false));
    assert!(reg.programs.is_empty());
}

#[test]
fn kill_list_dedup_and_removal() {
    let mut reg = Registry::new();
    assert!(reg.add_kill_target("A.exe".to_string()));
    assert!(!reg.add_kill_target("A.exe".to_string()));
    assert!(reg.add_kill_target("B.exe".to_string()));
    assert_eq!(reg.kill_list, vec!["A.exe", "B.exe"]);
    let removed = reg.remove_kill_target(0);
    assert_eq!(removed, "A.exe");
    assert_eq!(reg.kill_list, vec!["B.exe"]);
}

#[test]
fn remove_program_by_identifier() {
    let mut reg = Registry::new();
    assert!(reg.add_program("C:\\g\\Game.exe".to_string(), true));
    assert!(reg.add_program("C:\\t\\Tool.exe".to_string(), true));
    assert!(reg.remove_program("Game.exe"));
    assert_eq!(reg.programs.len(), 1);
    assert_eq!(reg.programs[0].identifier, "Tool.exe");
    assert!(!reg.remove_program("Game.exe"));
}

#[test]
fn setters_touch_only_their_field() {
    let mut reg = Registry::new();
    assert!(reg.add_program("C:\\g\\Game.exe".to_string(), true));
    reg.set_display_name(0, "My Game".to_string());
    assert_eq!(reg.programs[0].display_name, "My Game");
    assert_eq!(reg.programs[0].identifier, "Game.exe");
    reg.set_trigger(0, LaunchTrigger::OnDemand);
    assert_eq!(reg.programs[0].trigger, LaunchTrigger::OnDemand);
    reg.set_close_on_unload(0, true);
    assert!(reg.programs[0].close_on_unload);
    reg.set_visible_in_launcher(0, false);
    assert!(!reg.programs[0].visible_in_launcher);
    assert_eq!(reg.programs[0].display_name, "My Game");
    assert_eq!(reg.programs[0].command, "C:\\g\\Game.exe");
}

#[test]
fn find_by_identifier_first_match() {
    let mut reg = Registry::new();
    assert!(reg.add_program("C:\\g\\Game.exe".to_string(), true));
    assert_eq!(reg.find_by_identifier("Game.exe"), Some(0));
    assert_eq!(reg.find_by_identifier("Nope"), None);
}
