use rldeck::fetch::{download_check, download_grows, failure_line, is_archive, spend, too_many_copies, unpack_check, MAX_COPIES, MAX_UNPACKED};
use rldeck::fetch::{
    bare_package_name, charge, declared_bytes, folder_candidate, import_folder_name, import_group_plan, import_name,
    import_summary, is_zip_header, plan, sanitize, staging_for, worth_taking_name, Error, Extras, Planned, RawEntry,
};

fn raw(index: usize, name: Option<&str>, is_dir: bool, bytes: u64) -> RawEntry {
    RawEntry { index, is_dir, name: name.map(|n| n.to_string()), bytes }
}

#[test]
fn two_downloads_at_once_do_not_write_to_the_same_file() {
    let library = "/maps";

    let one = staging_for(library, "Triple Goal", "https://drive/a");
    let two = staging_for(library, "Banjo Bridge", "https://drive/b");
    let same_name = staging_for(library, "Triple Goal", "https://drive/c");

    assert_ne!(one, two);
    assert_ne!(one, same_name, "a retry of the same map from a new link is a new download");
    assert_eq!(one, staging_for(library, "Triple Goal", "https://drive/a"));
    assert!(one.starts_with("/maps/.staging/"));
}

#[test]
fn names_that_would_break_windows_are_cleaned() {
    assert_eq!(sanitize("Map: The <Sequel>"), "Map_ The _Sequel_");
    assert_eq!(sanitize("  ..  "), "map");
}

#[test]
fn junk_and_repeated_entries_are_left_out_of_an_archive() {
    let entries = vec![
        raw(0, Some("CoolMap"), true, 0),
        raw(1, Some("CoolMap_P.upk"), false, 512),
        raw(2, Some("readme.txt"), false, 5),
        raw(3, Some(".hidden.upk"), false, 9),
        raw(4, Some("preview.png"), false, 64),
        raw(5, None, false, 16),
        raw(6, Some("CoolMap_P.upk"), false, 99),
        raw(7, Some("info.json"), false, 32),
    ];
    let planned = plan(&entries);
    assert_eq!(
        planned,
        vec![
            Planned { index: 1, name: "CoolMap_P.upk".to_string(), bytes: 512 },
            Planned { index: 4, name: "preview.png".to_string(), bytes: 64 },
            Planned { index: 7, name: "info.json".to_string(), bytes: 32 },
        ]
    );
    assert_eq!(declared_bytes(&planned), 608);
    assert_eq!(declared_bytes(&[Planned { index: 0, name: "a".to_string(), bytes: u64::MAX }, Planned { index: 1, name: "b".to_string(), bytes: 1 }]), u64::MAX);
}

#[test]
fn the_unpack_budget_refuses_what_goes_over() {
    assert_eq!(charge(100, 40), Some(60));
    assert_eq!(charge(100, 100), Some(0));
    assert_eq!(charge(100, 101), None);
}

#[test]
fn several_loose_files_are_named_by_their_level() {
    let picked = vec![
        "/dl/Aaa_Textures.upk".to_string(),
        "/dl/Cool_Map_P.upk".to_string(),
        "/dl/notes.txt".to_string(),
    ];
    let (name, taken) = import_group_plan(&picked, &[8192, 512, 3]).unwrap();
    assert_eq!(name, "Cool_Map");
    assert_eq!(taken.len(), 3);
    assert_eq!(taken[1], ("/dl/Cool_Map_P.upk".to_string(), "Cool_Map_P.upk".to_string()));

    let plain = vec!["/dl/Small.upk".to_string(), "/dl/TheLevel.upk".to_string()];
    assert_eq!(import_group_plan(&plain, &[128, 65536]).unwrap().0, "TheLevel");

    let none = vec!["/dl/photo.jpg".to_string()];
    match import_group_plan(&none, &[1]) {
        Err(Error::Archive(message)) => assert_eq!(message, "no map file selected"),
        other => panic!("expected a refusal, got {other:?}"),
    }
}

#[test]
fn a_folder_without_a_map_is_refused() {
    let taken = vec!["preview.jpg".to_string(), "Speed_Jump_Ring_P.upk".to_string()];
    assert_eq!(import_folder_name("/dl/Speed Jump Ring", &taken).unwrap(), "Speed Jump Ring");
    match import_folder_name("/dl/Holiday Photos", &["beach.jpg".to_string()]) {
        Err(e) => assert_eq!(e.message(), "no map file in Holiday Photos"),
        Ok(name) => panic!("accepted {name}"),
    }
    assert!(matches!(import_folder_name("/", &taken), Err(Error::Archive(m)) if m == "unnamed folder"));
}

#[test]
fn a_second_map_of_the_same_name_gets_its_own_folder() {
    assert_eq!(folder_candidate("/lib", "Dribble", 0), "/lib/Dribble");
    assert_eq!(folder_candidate("/lib", "Dribble", 1), "/lib/Dribble (2)");
    assert_eq!(folder_candidate("/lib", "Dribble", 9), "/lib/Dribble (10)");
}

#[test]
fn an_import_reports_what_was_added_and_what_failed() {
    let none: Vec<String> = Vec::new();
    assert_eq!(import_summary(&none, &none), "Nothing to import");
    assert_eq!(import_summary(&["A".to_string(), "B".to_string()], &none), "Added A, B");
    assert_eq!(import_summary(&none, &["x: bad".to_string(), "y: worse".to_string()]), "x: bad \u{b7} y: worse");
    assert_eq!(import_summary(&["A".to_string()], &["x: bad".to_string()]), "Added A \u{b7} x: bad");
}

#[test]
fn small_naming_rules() {
    assert_eq!(import_name("/dl/Cool Map.zip"), "Cool Map");
    assert_eq!(import_name("/"), "Map");
    assert_eq!(bare_package_name("Map: Two"), "Map_ Two.upk");
    assert!(is_zip_header(4, b"PK\x03\x04"));
    assert!(!is_zip_header(2, b"PK\x03\x04"));
    assert!(!is_zip_header(4, b"\x89PNG"));
    assert!(worth_taking_name("Map_P.upk"));
    assert!(!worth_taking_name(".DS_Store"));
    assert_eq!(Error::NeedsBrowser.message(), "Google Drive wants confirmation, so open it in your browser");
}

#[test]
fn a_downloaded_map_keeps_its_catalog_details() {
    let extras = Extras { author: Some("Lethamyr".to_string()), checked: true, source: Some("https://page".to_string()), ..Extras::default() };
    let info = extras.info("Cool");
    assert_eq!(info.name.as_deref(), Some("Cool"));
    assert_eq!(info.author.as_deref(), Some("Lethamyr"));
    assert!(info.settings_checked);
    assert_eq!(info.source.as_deref(), Some("https://page"));
}

#[test]
fn several_loose_files_import_as_one_multi_file_map() {
    let files: Vec<String> = ["Whack_A_Mole_P.upk", "Whack_A_Mole_Textures.upk", "Whack_A_Mole_Meshes.upk"]
        .iter()
        .map(|n| format!("/root/downloads/{n}"))
        .collect();
    let (name, taken) = import_group_plan(&files, &[4096, 2048, 1024]).unwrap();
    assert_eq!(name, "Whack_A_Mole");
    assert_eq!(taken.len(), 3);
    assert_eq!(taken[0].0, "/root/downloads/Whack_A_Mole_P.upk", "the user's own copy is read, not moved");
}

#[test]
fn the_level_names_the_map_even_when_it_is_not_the_first_file() {
    let files = vec!["/root/downloads/Aaa_Textures.upk".to_string(), "/root/downloads/Cool_Map_P.upk".to_string()];
    assert_eq!(import_group_plan(&files, &[8192, 512]).unwrap().0, "Cool_Map");
}

#[test]
fn with_no_p_suffix_the_biggest_package_names_the_map() {
    let files = vec!["/root/downloads/Small.upk".to_string(), "/root/downloads/TheLevel.upk".to_string()];
    assert_eq!(import_group_plan(&files, &[128, 65536]).unwrap().0, "TheLevel");
}

#[test]
fn importing_a_folder_takes_the_map_and_leaves_the_rest() {
    let inside = ["Speed_Jump_Ring_P.upk", "Speed_Jump_Ring_SF.upk", "preview.jpg", "readme.txt"];
    let taken: Vec<String> = inside.iter().filter(|n| worth_taking_name(n)).map(|n| n.to_string()).collect();
    assert_eq!(taken, vec!["Speed_Jump_Ring_P.upk", "Speed_Jump_Ring_SF.upk", "preview.jpg"], "junk stays out of the library");
    assert_eq!(import_folder_name("/root/Speed Jump Ring", &taken).unwrap(), "Speed Jump Ring");
}

#[test]
fn a_folder_with_no_map_in_it_is_refused_without_leaving_a_stub() {
    let taken: Vec<String> = ["beach.jpg"].iter().filter(|n| worth_taking_name(n)).map(|n| n.to_string()).collect();
    assert!(import_folder_name("/root/Holiday Photos", &taken).is_err());
}

#[test]
fn a_download_is_refused_when_the_host_answers_with_a_page_or_an_error() {
    assert!(download_check(true, "200 OK", Some("application/zip")).is_ok());
    assert!(download_check(true, "200 OK", None).is_ok());
    assert!(matches!(download_check(true, "200 OK", Some("text/html; charset=utf-8")), Err(Error::NeedsBrowser)));
    match download_check(false, "404 Not Found", Some("text/html")) {
        Err(Error::Network(m)) => assert_eq!(m, "HTTP 404 Not Found"),
        other => panic!("expected a network error, got {other:?}"),
    }
    assert_eq!(download_grows(10, 5).ok(), Some(15));
    assert!(matches!(download_grows(MAX_UNPACKED, 1), Err(Error::Archive(m)) if m == "download exceeded the size cap"));
    assert_eq!(download_grows(MAX_UNPACKED - 1, 1).ok(), Some(MAX_UNPACKED));
}

#[test]
fn an_archive_is_unpacked_only_within_its_budget() {
    assert!(matches!(unpack_check(&[]), Err(Error::Archive(m)) if m == "no map files in the archive"));
    let small = vec![Planned { index: 0, name: "a_P.upk".to_string(), bytes: 10 }, Planned { index: 1, name: "b.png".to_string(), bytes: 5 }];
    assert_eq!(unpack_check(&small).ok(), Some(15));
    let huge = vec![Planned { index: 0, name: "a_P.upk".to_string(), bytes: MAX_UNPACKED }, Planned { index: 1, name: "b".to_string(), bytes: 1 }];
    assert!(matches!(unpack_check(&huge), Err(Error::Archive(m)) if m == "archive unpacks to too much"));
    assert_eq!(spend(100, 40).ok(), Some(60));
    assert!(matches!(spend(100, 101), Err(Error::Archive(m)) if m == "archive unpacks to too much"));
    assert!(matches!(too_many_copies("Dribble"), Error::Archive(m) if m == "too many copies of Dribble already"));
    assert_eq!(MAX_COPIES, 100);
}

#[test]
fn archives_are_imported_on_their_own_and_failures_name_the_file() {
    assert!(is_archive("/dl/Cool Map.zip"));
    assert!(is_archive("/dl/OLD.ZIP"));
    assert!(!is_archive("/dl/Cool_P.upk"));
    assert!(!is_archive("/dl/zip"));
    assert_eq!(failure_line("/dl/Broken.zip", &Error::Archive("no map files in the archive".to_string())), "Broken.zip: no map files in the archive");
}
