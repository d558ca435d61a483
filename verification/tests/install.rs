use rldeck::install::{backup_refused, load_failed};
use rldeck::install::{
    install_step, maps_dir, original_backup_path, protect_step, protected, restore_step, step_for, Displaced, Error,
    Loaded, Placement, Record, Step,
};

#[test]
fn an_unknown_level_is_backed_up_only_once_the_user_agrees() {
    let fresh = Record::default();
    let target = "/game/TAGame/CookedPCConsole/Labs_Underpass_P.upk";

    assert_eq!(protect_step(&fresh, target, false, 0, true), Err(Error::TargetMissing(target.to_string())));
    assert_eq!(protect_step(&fresh, target, true, 4_100_000, false), Err(Error::NeedsConfirmation { bytes: 4_100_000 }));
    assert_eq!(protect_step(&fresh, target, true, 4_100_000, true), Ok(true));

    let backup = original_backup_path("/backups", "abc123");
    assert_eq!(backup, "/backups/abc123.upk");
    let known = protected(fresh, "abc123".to_string(), 4_100_000, backup.clone());
    assert_eq!(known.original_sha256.as_deref(), Some("abc123"));
    assert_eq!(known.original_bytes, 4_100_000);
    assert_eq!(known.backup.as_deref(), Some("/backups/abc123.upk"));
    assert_eq!(protect_step(&known, target, true, 9, false), Ok(false), "a known original is never captured again");
}

#[test]
fn loading_and_restoring_wait_for_a_backup() {
    let fresh = Record::default();
    assert_eq!(install_step(&fresh), Err(Error::NoBackup));
    assert_eq!(restore_step(&fresh, true), Err(Error::NoBackup));

    let known = protected(fresh, "abc".to_string(), 10, "/b/abc.upk".to_string());
    assert_eq!(install_step(&known), Ok(()));
    assert_eq!(restore_step(&known, true), Ok("/b/abc.upk".to_string()));
    assert_eq!(restore_step(&known, false), Err(Error::BackupLost("/b/abc.upk".to_string())));
}

#[test]
fn a_map_records_every_package_it_places_and_every_file_it_pushes_aside() {
    let dir = maps_dir("/game");
    assert_eq!(dir, "/game/TAGame/CookedPCConsole");

    let mut placement = Placement::new();
    let first = step_for("/lib/Mole/Mole_Textures.upk", &dir, "/backups", false).unwrap();
    assert_eq!(
        first,
        Step { name: "Mole_Textures.upk".to_string(), dest: "/game/TAGame/CookedPCConsole/Mole_Textures.upk".to_string(), park: None }
    );
    placement.parked(&first);
    placement.placed(&first);
    let second = step_for("/lib/Mole/Shared.upk", &dir, "/backups", true).unwrap();
    assert_eq!(
        second,
        Step {
            name: "Shared.upk".to_string(),
            dest: "/game/TAGame/CookedPCConsole/Shared.upk".to_string(),
            park: Some("/backups/displaced-Shared.upk".to_string()),
        }
    );
    placement.parked(&second);
    placement.placed(&second);
    assert_eq!(step_for("/", &dir, "/backups", true), None, "a path with no file name places nothing");

    assert_eq!(
        placement.removals(&dir),
        vec!["/game/TAGame/CookedPCConsole/Mole_Textures.upk".to_string(), "/game/TAGame/CookedPCConsole/Shared.upk".to_string()]
    );
    assert_eq!(
        placement.restorations(&dir),
        vec![("/backups/displaced-Shared.upk".to_string(), "/game/TAGame/CookedPCConsole/Shared.upk".to_string())]
    );

    let loaded = placement.into_loaded("Mole".to_string(), "d1g35t".to_string());
    assert_eq!(loaded.map_name, "Mole");
    assert_eq!(loaded.sha256, "d1g35t");
    assert_eq!(loaded.extras, vec!["Mole_Textures.upk".to_string(), "Shared.upk".to_string()]);
    assert_eq!(
        loaded.displaced,
        vec![Displaced { name: "Shared.upk".to_string(), backup: "/backups/displaced-Shared.upk".to_string() }]
    );

    let again = Placement::of(&loaded);
    assert_eq!(again.removals(&dir).len(), 2);
    assert_eq!(again.restorations(&dir).len(), 1);
    let empty = Loaded { map_name: "x".to_string(), sha256: "y".to_string(), extras: Vec::new(), displaced: Vec::new() };
    assert!(Placement::of(&empty).removals(&dir).is_empty());
}

#[test]
fn a_failed_load_says_what_went_wrong() {
    assert_eq!(Error::NoBackup.message("0.0"), "no original has been backed up yet");
    assert_eq!(Error::TargetMissing("/g/x.upk".to_string()).message(""), "no Labs_Underpass_P.upk at /g/x.upk");
    assert_eq!(Error::BackupLost("/b/a.upk".to_string()).message(""), "backup missing from /b/a.upk");
    assert_eq!(
        Error::NeedsConfirmation { bytes: 4_120_000 }.message("4.1"),
        "Labs_Underpass_P.upk is 4.1 MB, which does not match a known original"
    );
    assert_eq!(Error::Io("disk full".to_string()).message(""), "disk full");

    assert_eq!(backup_refused(&Error::NeedsConfirmation { bytes: 7 }, "0.0"), Ok(7));
    assert_eq!(
        backup_refused(&Error::TargetMissing("/g/x.upk".to_string()), ""),
        Err("Could not back up Underpass: no Labs_Underpass_P.upk at /g/x.upk".to_string())
    );
    assert_eq!(load_failed("Cool", &Error::Io("disk full".to_string()), ""), "Could not load Cool: disk full");
}
