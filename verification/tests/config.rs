use rldeck::config::{slot_in, Config};
use rldeck::install::Record;

#[test]
fn an_unknown_install_starts_with_a_blank_record() {
    let config = Config::default();
    assert!(config.record("/nowhere", false).original_sha256.is_none());
}

#[test]
fn stars_toggle_cleanly() {
    let mut config = Config::default();
    let key = "/maps/Speed Rings".to_string();

    assert!(config.toggle_star(&key));
    assert!(config.is_starred(&key));
    assert!(!config.toggle_star(&key));
    assert!(!config.is_starred(&key));
}

#[test]
fn two_installs_keep_separate_records() {
    let mut config = Config::default();

    let steam = r"D:\SteamLibrary\steamapps\common\rocketleague";
    let epic = r"C:\Program Files\Epic Games\rocketleague";

    config.set_record(steam, true, Record { original_sha256: Some("aaa".into()), ..Record::default() });
    config.set_record(epic, true, Record { original_sha256: Some("bbb".into()), ..Record::default() });

    assert_eq!(config.record(steam, true).original_sha256.as_deref(), Some("aaa"));
    assert_eq!(config.record(epic, true).original_sha256.as_deref(), Some("bbb"));
}

#[test]
fn an_install_keeps_its_record_however_its_folder_is_spelt_on_windows() {
    let mut config = Config::default();
    config.set_record(r"C:\Games\RL", true, Record { original_sha256: Some("aaa".into()), ..Record::default() });
    assert_eq!(config.record("c:/games/rl", true).original_sha256.as_deref(), Some("aaa"));
    assert!(config.record("c:/games/rl", false).original_sha256.is_none(), "elsewhere the spelling is the folder");
    config.set_record("/games/one", false, Record::default());
    assert!(config.record("/games/one", false).original_sha256.is_none());
}

#[test]
fn a_backup_slot_is_named_by_the_install() {
    let one = slot_in("/data/RLDeck/originals", "/games/one");
    let two = slot_in("/data/RLDeck/originals", "/games/two");
    assert_ne!(one, two);
    assert!(one.starts_with("/data/RLDeck/originals/"));
    assert_eq!(one.len(), "/data/RLDeck/originals/".len() + 12);
}

#[test]
fn starring_twice_is_starring_once() {
    let mut config = Config::default();
    config.set_star("/maps/A", true);
    config.set_star("/maps/A", true);
    assert!(config.is_starred("/maps/A"));
    config.set_star("/maps/A", false);
    assert!(!config.is_starred("/maps/A"));
    assert!(config.starred.is_empty());
}
