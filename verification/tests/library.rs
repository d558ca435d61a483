use rldeck::library::{
    assemble_map, check_removal, info_from, is_info_file, is_persistent, loose_map, pick_level, settle_info, sort_by_name,
    strip_persistent_suffix, Error, Info, LocalMap,
};

fn named(name: &str) -> LocalMap {
    LocalMap { name: name.to_string(), ..LocalMap::default() }
}

#[test]
fn the_persistent_suffix_is_matched_and_stripped_the_same_way() {
    assert_eq!(strip_persistent_suffix("Underpass_P"), "Underpass");
    assert_eq!(strip_persistent_suffix("Underpass_p"), "Underpass");
    assert_eq!(strip_persistent_suffix("Underpass"), "Underpass");
    assert!(is_persistent("Underpass_p.upk"));
    assert!(!is_persistent("Underpass.upk"));
}

#[test]
fn a_multibyte_name_is_not_sliced_down_the_middle() {
    assert_eq!(strip_persistent_suffix("Café"), "Café");
    assert_eq!(strip_persistent_suffix("Café_P"), "Café");
    assert_eq!(strip_persistent_suffix("é"), "é");
    assert_eq!(strip_persistent_suffix(""), "");
}

#[test]
fn the_level_is_the_p_package_else_the_biggest() {
    let with_p = vec!["Big.upk".to_string(), "Small_P.upk".to_string()];
    assert_eq!(pick_level(&with_p, &[9000, 10]), Some(1));
    let plain = vec!["Small.upk".to_string(), "TheLevel.upk".to_string()];
    assert_eq!(pick_level(&plain, &[128, 65536]), Some(1));
    assert_eq!(pick_level(&[], &[]), None);
}

#[test]
fn a_folder_becomes_a_map_named_by_its_info_or_itself() {
    let files = vec![
        "/lib/Cool/preview.png".to_string(),
        "/lib/Cool/Cool_Textures.upk".to_string(),
        "/lib/Cool/Cool_P.upk".to_string(),
        "/lib/Cool/a.jpg".to_string(),
        "/lib/Cool/readme.txt".to_string(),
    ];
    let sizes = [10, 200, 300, 5, 1];
    let map = assemble_map("/lib/Cool", &files, &sizes, Info::default(), Some(7)).unwrap();
    assert_eq!(map.name, "Cool");
    assert_eq!(map.primary, "/lib/Cool/Cool_P.upk");
    assert_eq!(map.extras, vec!["/lib/Cool/Cool_Textures.upk".to_string()]);
    assert_eq!(map.image.as_deref(), Some("/lib/Cool/a.jpg"));
    assert_eq!(map.bytes, 500);
    assert_eq!(map.folder.as_deref(), Some("/lib/Cool"));
    assert_eq!(map.saved, Some(7));

    let info = Info { name: Some("Cool Map".to_string()), author: Some("Someone".to_string()), ..Info::default() };
    let titled = assemble_map("/lib/Cool", &files, &sizes, info, None).unwrap();
    assert_eq!(titled.name, "Cool Map");
    assert_eq!(titled.author.as_deref(), Some("Someone"));
}

#[test]
fn a_folder_without_a_map_is_no_map() {
    let files = vec!["/lib/Photos/beach.jpg".to_string()];
    assert!(assemble_map("/lib/Photos", &files, &[64], Info::default(), None).is_none());
}

#[test]
fn a_loose_file_is_named_after_its_stem() {
    let map = loose_map("/lib/Dropped.upk", 64, None).unwrap();
    assert_eq!(map.name, "Dropped");
    assert_eq!(map.folder, None);
    assert_eq!(map.primary, "/lib/Dropped.upk");
    assert_eq!(map.key(), "/lib/Dropped.upk");
    assert_eq!(map.file_count(), 1);
    assert_eq!(loose_map("/", 0, None).unwrap_err(), "unnamed file");
}

#[test]
fn the_library_reads_in_name_order_whatever_the_case() {
    let sorted = sort_by_name(vec![named("zebra"), named("Alpha"), named("beta"), named("alpha")]);
    let names: Vec<&str> = sorted.iter().map(|m| m.name.as_str()).collect();
    assert_eq!(names, ["Alpha", "alpha", "beta", "zebra"]);
}

#[test]
fn older_info_keys_fill_the_gaps_and_blanks_are_dropped() {
    let raw = r#"{"title":"Old Title","desc":"Old words","url":"https://old","author":"  "}"#;
    let parsed = Info { author: Some("  ".to_string()), ..Info::default() };
    let info = info_from(raw, Some(parsed));
    assert_eq!(info.name.as_deref(), Some("Old Title"));
    assert_eq!(info.description.as_deref(), Some("Old words"));
    assert_eq!(info.blurb.as_deref(), Some("Old words"));
    assert_eq!(info.source.as_deref(), Some("https://old"));
    assert_eq!(info.author, None);

    let newer = Info { name: Some("New".to_string()), ..Info::default() };
    let kept = settle_info(newer, Some("Old".to_string()), None, None);
    assert_eq!(kept.name.as_deref(), Some("New"));
    assert_eq!(info_from("not json", None).name, None);
}

#[test]
fn only_the_info_file_is_the_info_file() {
    assert!(is_info_file("/lib/Cool/info.json"));
    assert!(!is_info_file("/lib/Cool/other.json"));
}

#[test]
fn deleting_is_refused_for_the_library_itself_and_for_what_lies_outside() {
    assert_eq!(check_removal("/lib", "/lib/", "Lib"), Err(Error::IsLibraryRoot));
    assert_eq!(check_removal("/elsewhere/Stray", "/lib", "Stray"), Err(Error::OutsideLibrary("Stray".to_string())));
    assert_eq!(check_removal("/library2/Map", "/lib", "Map"), Err(Error::OutsideLibrary("Map".to_string())));
    assert_eq!(check_removal("/lib/Cool", "/lib", "Cool"), Ok(()));
    assert_eq!(Error::IsLibraryRoot.message(), "refusing to delete the library folder itself");
}

#[test]
fn windows_separators_count_when_checking_a_removal() {
    assert_eq!(check_removal(r"C:\lib\Cool", r"C:\lib", "Cool"), Ok(()));
    assert_eq!(check_removal(r"C:\lib\", "C:/lib", "Lib"), Err(Error::IsLibraryRoot));
    assert_eq!(check_removal(r"C:\elsewhere\Stray", r"C:\lib", "Stray"), Err(Error::OutsideLibrary("Stray".to_string())));
}

#[test]
fn a_maps_key_is_its_folder_or_its_file() {
    let mut map = named("Cool");
    map.primary = "/lib/Cool/Cool_P.upk".to_string();
    assert_eq!(map.key(), "/lib/Cool/Cool_P.upk");
    map.folder = Some("/lib/Cool".to_string());
    assert_eq!(map.key(), "/lib/Cool");
    assert_eq!(map.home(), "/lib/Cool");
}
