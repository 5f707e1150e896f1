use pumpkinverse::commands::{
    create_world, delete_world, format_list_line, list_worlds, message_already_exists,
    message_created, message_creating, message_deleted, message_does_not_exist,
    message_must_specify_player, plan_teleport, render_list_report, CreateOutcome, DeleteOutcome,
    ListLine, TeleportPlan,
};
use pumpkinverse::config::{contains_name, MyPlugin};
use pumpkinverse::registry::{
    exists_world, find_world, join_path, make_entry, replay_worlds, WorldEntry,
};

fn entry(name: &str, folder: &str) -> WorldEntry {
    WorldEntry { level_name: name.to_string(), folder: folder.to_string() }
}

#[test]
fn new_config_has_defaults() {
    let c = MyPlugin::new();
    assert_eq!(c.world_folder, "worlds");
    assert!(c.managed_worlds.is_empty());
}

#[test]
fn default_equals_new() {
    let c: MyPlugin = Default::default();
    assert_eq!(c.world_folder, "worlds");
    assert!(c.managed_worlds.is_empty());
}

#[test]
fn create_twice_keeps_one_entry() {
    let mut config = MyPlugin::new();
    let mut worlds: Vec<WorldEntry> = Vec::new();
    let name = "w".to_string();

    let first = create_world(&mut config, &mut worlds, &name);
    assert!(matches!(first, CreateOutcome::Created));
    assert_eq!(config.managed_worlds, vec!["w".to_string()]);
    assert_eq!(worlds.len(), 1);
    assert_eq!(worlds[0].level_name, "w");
    assert_eq!(worlds[0].folder, "worlds/w");

    let second = create_world(&mut config, &mut worlds, &name);
    assert!(matches!(second, CreateOutcome::AlreadyExists));
    assert_eq!(config.managed_worlds, vec!["w".to_string()]);
    assert_eq!(worlds.len(), 1);
}

#[test]
fn delete_unmanaged_reports_missing_and_changes_nothing() {
    let mut config = MyPlugin::new();
    config.managed_worlds.push("other".to_string());
    let mut worlds = vec![entry("other", "worlds/other")];

    let outcome = delete_world(&mut config, &mut worlds, &"w".to_string());
    assert!(matches!(outcome, DeleteOutcome::DoesNotExist));
    assert_eq!(config.managed_worlds, vec!["other".to_string()]);
    assert_eq!(worlds.len(), 1);
}

#[test]
fn delete_managed_removes_both_sides() {
    let mut config = MyPlugin::new();
    let mut worlds: Vec<WorldEntry> = Vec::new();
    create_world(&mut config, &mut worlds, &"a".to_string());
    create_world(&mut config, &mut worlds, &"b".to_string());

    let outcome = delete_world(&mut config, &mut worlds, &"a".to_string());
    assert!(matches!(outcome, DeleteOutcome::Deleted));
    assert_eq!(config.managed_worlds, vec!["b".to_string()]);
    assert_eq!(worlds.len(), 1);
    assert_eq!(worlds[0].level_name, "b");
}

#[test]
fn create_delete_sequence_keeps_registry_consistent() {
    let mut config = MyPlugin::new();
    let mut worlds: Vec<WorldEntry> = Vec::new();
    create_world(&mut config, &mut worlds, &"a".to_string());
    create_world(&mut config, &mut worlds, &"b".to_string());
    create_world(&mut config, &mut worlds, &"c".to_string());
    delete_world(&mut config, &mut worlds, &"b".to_string());

    let managed: Vec<String> = config.managed_worlds.clone();
    let level_names: Vec<String> = worlds.iter().map(|w| w.level_name.clone()).collect();
    assert_eq!(managed, level_names);
    assert_eq!(managed, vec!["a".to_string(), "c".to_string()]);
}

#[test]
fn list_labels_managed_and_unmanaged() {
    let mut config = MyPlugin::new();
    config.managed_worlds.push("a".to_string());
    config.managed_worlds.push("b".to_string());
    let worlds = vec![entry("a", "worlds/a"), entry("c", "worlds/c")];

    let lines = list_worlds(&config, &worlds);
    assert_eq!(lines.len(), 2);
    assert_eq!(lines[0].name, "a");
    assert!(lines[0].managed);
    assert_eq!(lines[1].name, "c");
    assert!(!lines[1].managed);
}

#[test]
fn list_line_rendering() {
    let managed = ListLine { name: "a".to_string(), managed: true };
    let plain = ListLine { name: "c".to_string(), managed: false };
    assert_eq!(format_list_line(&managed), "\n - a (Managed)");
    assert_eq!(format_list_line(&plain), "\n - c (unmanaged)");
}

#[test]
fn list_report_rendering() {
    let mut config = MyPlugin::new();
    config.managed_worlds.push("a".to_string());
    config.managed_worlds.push("b".to_string());
    let worlds = vec![entry("a", "worlds/a"), entry("c", "worlds/c")];

    let report = render_list_report(&list_worlds(&config, &worlds));
    assert_eq!(report, "Worlds: \n - a (Managed)\n - c (unmanaged)");
}

#[test]
fn teleport_to_unmanaged_world_succeeds() {
    let config = MyPlugin::new();
    assert!(config.managed_worlds.is_empty());
    let worlds = vec![entry("c", "worlds/c")];

    let plan = plan_teleport(&worlds, &"c".to_string(), true, false);
    assert!(matches!(plan, TeleportPlan::TeleportTargets { world_index: 0 }));
}

#[test]
fn teleport_sender_when_no_targets() {
    let worlds = vec![entry("c", "worlds/c")];
    let plan = plan_teleport(&worlds, &"c".to_string(), false, true);
    assert!(matches!(plan, TeleportPlan::TeleportSender { world_index: 0 }));
}

#[test]
fn teleport_without_player_is_rejected() {
    let worlds = vec![entry("c", "worlds/c")];
    let plan = plan_teleport(&worlds, &"c".to_string(), false, false);
    assert!(matches!(plan, TeleportPlan::NoPlayerSpecified));
}

#[test]
fn teleport_missing_world_reports_not_found() {
    let worlds = vec![entry("c", "worlds/c")];
    let with_targets = plan_teleport(&worlds, &"nonexistent".to_string(), true, true);
    assert!(matches!(with_targets, TeleportPlan::WorldNotFound));
    let without_targets = plan_teleport(&worlds, &"nonexistent".to_string(), false, false);
    assert!(matches!(without_targets, TeleportPlan::WorldNotFound));
}

#[test]
fn name_comparison_is_exact_and_case_sensitive() {
    let names = vec!["Town".to_string()];
    assert!(contains_name(&names, &"Town".to_string()));
    assert!(!contains_name(&names, &"town".to_string()));
    assert!(!contains_name(&names, &" Town".to_string()));
}

#[test]
fn find_world_returns_first_match() {
    let worlds = vec![entry("a", "worlds/a"), entry("b", "worlds/b"), entry("b", "elsewhere/b")];
    assert_eq!(find_world(&worlds, &"b".to_string()), Some(1));
    assert_eq!(find_world(&worlds, &"missing".to_string()), None);
    assert!(exists_world(&worlds, &"a".to_string()));
    assert!(!exists_world(&worlds, &"missing".to_string()));
}

#[test]
fn paths_join_base_and_name() {
    assert_eq!(join_path("worlds", "town"), "worlds/town");
    let e = make_entry("base", "w");
    assert_eq!(e.level_name, "w");
    assert_eq!(e.folder, "base/w");
}

#[test]
fn replay_constructs_missing_worlds_in_order() {
    let mut config = MyPlugin::new();
    config.managed_worlds.push("a".to_string());
    config.managed_worlds.push("b".to_string());
    let mut worlds = vec![entry("a", "pre/a")];

    replay_worlds(&config, &mut worlds);
    assert_eq!(worlds.len(), 2);
    assert_eq!(worlds[0].level_name, "a");
    assert_eq!(worlds[0].folder, "pre/a");
    assert_eq!(worlds[1].level_name, "b");
    assert_eq!(worlds[1].folder, "worlds/b");
}

#[test]
fn restart_rebuilds_worlds_from_persisted_config() {
    let mut config = MyPlugin::new();
    let mut worlds: Vec<WorldEntry> = Vec::new();
    create_world(&mut config, &mut worlds, &"a".to_string());
    create_world(&mut config, &mut worlds, &"b".to_string());

    let text = pumpkinverse::codec::encode_config(&config);
    let reloaded = pumpkinverse::codec::parse_config(&text).expect("persisted text must parse");

    let mut fresh_worlds: Vec<WorldEntry> = Vec::new();
    replay_worlds(&reloaded, &mut fresh_worlds);
    let names: Vec<String> = fresh_worlds.iter().map(|w| w.level_name.clone()).collect();
    assert_eq!(names, reloaded.managed_worlds);
    assert_eq!(names, vec!["a".to_string(), "b".to_string()]);
    assert_eq!(fresh_worlds[0].folder, "worlds/a");
}

#[test]
fn status_messages_match_expected_texts() {
    assert_eq!(message_already_exists("w"), "World \"w\" already exists.");
    assert_eq!(message_creating("w"), "Creating new world \"w\"...");
    assert_eq!(message_created("w"), "World \"w\" created.");
    assert_eq!(message_deleted("w"), "World \"w\" deleted.");
    assert_eq!(message_does_not_exist("w"), "World \"w\" does not exist.");
    assert_eq!(message_must_specify_player(), "You must specify a player to teleport.");
}

#[test]
fn create_town_scenario() {
    let mut config = MyPlugin::new();
    let mut worlds: Vec<WorldEntry> = Vec::new();

    let outcome = create_world(&mut config, &mut worlds, &"town".to_string());
    assert!(matches!(outcome, CreateOutcome::Created));
    assert_eq!(message_created("town"), "World \"town\" created.");
    assert_eq!(config.managed_worlds, vec!["town".to_string()]);
    assert_eq!(worlds.len(), 1);
    assert_eq!(worlds[0].level_name, "town");

    let persisted = pumpkinverse::codec::encode_config(&config);
    assert_eq!(persisted, "world_folder = \"worlds\"\nmanaged_worlds = [\"town\"]\n");
}
