use rldeck::files::{is_image, is_map, name_of, stem_of, worth_extracting};

#[test]
fn extensions_are_matched_however_they_are_capitalised() {
    assert!(is_map("Underpass_P.UPK"));
    assert!(is_map("a/b/Level.udk"));
    assert!(is_image("shot.JPEG"));
    assert!(!is_map("readme.txt"));
    assert!(!is_map("noextension"));
}

#[test]
fn only_maps_artwork_and_info_survive_an_archive() {
    assert!(worth_extracting("Map_P.upk"));
    assert!(worth_extracting("preview.png"));
    assert!(worth_extracting("info.json"));
    assert!(!worth_extracting("install.exe"));
    assert!(!worth_extracting("readme.txt"));
}

#[test]
fn a_path_with_no_file_name_still_has_something_to_call_it() {
    assert_eq!(name_of("/maps/Cool/Cool_P.upk"), "Cool_P.upk");
    assert_eq!(name_of("/maps/Cool/.."), "/maps/Cool/..");
    assert_eq!(stem_of("/maps/Cool_P.upk").as_deref(), Some("Cool_P"));
}

#[test]
fn a_dotted_file_is_all_stem() {
    assert_eq!(stem_of("/maps/.hidden").as_deref(), Some(".hidden"));
    assert!(!is_map("/maps/.upk"));
}

#[test]
fn a_windows_path_is_named_by_its_last_component() {
    assert_eq!(name_of(r"C:\Downloads\Cool_P.upk"), "Cool_P.upk");
    assert_eq!(stem_of(r"D:\maps\Cool\Cool_P.upk"), Some("Cool_P".to_string()));
    assert_eq!(name_of("/lib/Cool/"), "Cool");
}
