use pumpkinverse::codec::{encode_config, parse_config, ConfigError};
use pumpkinverse::config::MyPlugin;

fn config_of(folder: &str, names: &[&str]) -> MyPlugin {
    MyPlugin {
        world_folder: folder.to_string(),
        managed_worlds: names.iter().map(|n| n.to_string()).collect(),
    }
}

fn assert_round_trips(c: &MyPlugin) {
    let text = encode_config(c);
    let back = parse_config(&text).expect("encoded configuration must parse");
    assert_eq!(back.world_folder, c.world_folder);
    assert_eq!(back.managed_worlds, c.managed_worlds);
}

#[test]
fn encode_empty_config() {
    let c = MyPlugin::new();
    assert_eq!(encode_config(&c), "world_folder = \"worlds\"\nmanaged_worlds = []\n");
}

#[test]
fn encode_two_names() {
    let c = config_of("worlds", &["a", "b"]);
    assert_eq!(encode_config(&c), "world_folder = \"worlds\"\nmanaged_worlds = [\"a\", \"b\"]\n");
}

#[test]
fn round_trip_plain_names() {
    assert_round_trips(&config_of("worlds", &[]));
    assert_round_trips(&config_of("worlds", &["town"]));
    assert_round_trips(&config_of("data/worlds", &["a", "b", "c"]));
}

#[test]
fn round_trip_names_needing_escapes() {
    assert_round_trips(&config_of("odd\"base", &["with \"quotes\"", "back\\slash", "new\nline"]));
    assert_round_trips(&config_of("worlds", &["", " ", "ünïcode"]));
}

#[test]
fn escapes_are_visible_in_the_text() {
    let c = config_of("base", &["a\"b"]);
    assert_eq!(encode_config(&c), "world_folder = \"base\"\nmanaged_worlds = [\"a\\\"b\"]\n");
    let d = config_of("base", &["a\nb"]);
    assert_eq!(encode_config(&d), "world_folder = \"base\"\nmanaged_worlds = [\"a\\nb\"]\n");
}

#[test]
fn parse_handwritten_text() {
    let c = parse_config("world_folder = \"base\"\nmanaged_worlds = []\n").unwrap();
    assert_eq!(c.world_folder, "base");
    assert!(c.managed_worlds.is_empty());

    let d = parse_config("world_folder = \"b\"\nmanaged_worlds = [\"x\", \"y\"]\n").unwrap();
    assert_eq!(d.managed_worlds, vec!["x".to_string(), "y".to_string()]);
}

#[test]
fn corrupt_texts_are_rejected() {
    let corrupt = [
        "",
        "garbage",
        "world_folder = \"unterminated",
        "world_folder = \"b\"",
        "world_folder = \"b\"\nmanaged_worlds = [\"x\"",
        "world_folder = \"b\"\nmanaged_worlds = [\"x\",]\n",
        "world_folder = \"b\"\nmanaged_worlds = []\nextra",
        "world_folder = \"b\"\nmanaged_worlds = [\"bad\\escape\"]\n",
        "WORLD_FOLDER = \"b\"\nmanaged_worlds = []\n",
    ];
    for text in corrupt {
        let r = parse_config(text);
        assert!(matches!(r, Err(ConfigError::Corrupt)), "accepted: {text:?}");
    }
}

#[test]
fn duplicate_names_are_corrupt() {
    let r = parse_config("world_folder = \"b\"\nmanaged_worlds = [\"x\", \"x\"]\n");
    assert!(matches!(r, Err(ConfigError::Corrupt)));
}

#[test]
fn corrupt_error_describes_itself() {
    let r = parse_config("nonsense");
    let e = r.err().expect("must be corrupt");
    assert_eq!(e.describe(), "config file is corrupt");
}
