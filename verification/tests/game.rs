use rldeck::game::{
    epic_install, parse_epic_manifest, parse_library_folders, steam_game_dir, steam_installs_from_libraries, steam_roots,
    path_key, unique_installs, unique_paths, upward_candidates, windows_path_key, Install, Launcher,
};

#[test]
fn reads_every_steam_library_including_other_drives() {
    let vdf = r#"
"libraryfolders"
{
	"0"
	{
		"path"		"C:\\Program Files (x86)\\Steam"
		"label"		""
	}
	"1"
	{
		"path"		"D:\\SteamLibrary"
	}
}
"#;
    let libs = parse_library_folders(vdf);
    assert_eq!(
        libs,
        vec![r"C:\Program Files (x86)\Steam".to_string(), r"D:\SteamLibrary".to_string()],
        "a D: drive install is the case that sent people to the issue tracker"
    );
}

#[test]
fn windows_install_identity_ignores_case_and_slash_direction() {
    let registry = r"C:\Program Files (x86)\Steam\steamapps\common\rocketleague";
    let vdf = r"c:/program files (x86)/steam/steamapps/common/rocketleague";
    assert_eq!(windows_path_key(registry), windows_path_key(vdf));
}

#[test]
fn ignores_non_path_keys() {
    let vdf = r#"
	"contentstatsid"		"-123456"
	"path"		"E:\\Games"
"#;
    assert_eq!(parse_library_folders(vdf), vec![r"E:\Games".to_string()]);
}

#[test]
fn reads_an_epic_manifest() {
    let json = r#"{
        "DisplayName": "Rocket League",
        "InstallLocation": "C:\\Program Files\\Epic Games\\rocketleague",
        "AppName": "Sugar"
    }"#;

    let install = parse_epic_manifest(json).unwrap();
    assert_eq!(install.launcher, Launcher::Epic);
    assert_eq!(install.root, r"C:\Program Files\Epic Games\rocketleague");
}

#[test]
fn skips_epic_manifests_for_other_games() {
    let json = r#"{"DisplayName":"Fortnite","InstallLocation":"C:\\x"}"#;
    assert!(parse_epic_manifest(json).is_none());
}

#[test]
fn only_counts_folders_that_actually_hold_the_game() {
    let libraries = vec!["/root/lib".to_string(), "/root/empty".to_string()];
    let found = steam_installs_from_libraries(&libraries, &[true, false]);
    assert_eq!(found.len(), 1);
    assert_eq!(found[0].root, "/root/lib/steamapps/common/rocketleague");
    assert_eq!(found[0].launcher, Launcher::Steam);
}

#[test]
fn picking_a_folder_inside_the_install_looks_upward() {
    let up = upward_candidates("/games/rocketleague/TAGame/CookedPCConsole");
    assert_eq!(
        up,
        vec![
            "/games/rocketleague/TAGame/CookedPCConsole".to_string(),
            "/games/rocketleague/TAGame".to_string(),
            "/games/rocketleague".to_string(),
            "/games".to_string(),
        ]
    );
    assert_eq!(upward_candidates("/"), vec!["/".to_string()]);
}

#[test]
fn the_same_install_found_twice_is_listed_once() {
    let found = vec![
        Install { launcher: Launcher::Steam, root: "/b".to_string() },
        Install { launcher: Launcher::Epic, root: "/a".to_string() },
        Install { launcher: Launcher::Epic, root: "/b".to_string() },
    ];
    let unique = unique_installs(found, false);
    assert_eq!(
        unique,
        vec![Install { launcher: Launcher::Epic, root: "/a".to_string() }, Install { launcher: Launcher::Steam, root: "/b".to_string() }]
    );
    assert_eq!(unique_paths(vec!["/z".to_string(), "/a".to_string(), "/z".to_string()], false), vec!["/a".to_string(), "/z".to_string()]);
}

#[test]
fn steam_is_looked_for_where_it_installs_itself() {
    let roots = steam_roots("/home/me");
    assert_eq!(
        roots,
        vec![
            "/home/me/.steam/steam".to_string(),
            "/home/me/.local/share/Steam".to_string(),
            "/home/me/Library/Application Support/Steam".to_string(),
        ]
    );
    assert_eq!(steam_game_dir("/lib"), "/lib/steamapps/common/rocketleague");
}

#[test]
fn an_epic_manifest_without_a_location_names_no_install() {
    assert!(epic_install(Some("Rocket League".to_string()), None).is_none());
    assert!(epic_install(None, Some("C:\\x".to_string())).is_none());
    assert_eq!(Launcher::Steam.label(), "Steam");
    assert_eq!(Launcher::Epic.label(), "Epic");
}

#[test]
fn on_windows_two_spellings_of_one_folder_are_one_install() {
    let found = vec![
        Install { launcher: Launcher::Steam, root: r"C:\Games\rocketleague".to_string() },
        Install { launcher: Launcher::Epic, root: "c:/games/rocketleague".to_string() },
    ];
    assert_eq!(path_key(r"C:\Games\rocketleague", true), path_key("c:/games/rocketleague", true));
    assert_eq!(
        unique_installs(found.clone(), true),
        vec![Install { launcher: Launcher::Steam, root: r"C:\Games\rocketleague".to_string() }]
    );
    assert_eq!(unique_installs(found, false).len(), 2, "elsewhere case and slashes tell folders apart");
    assert_eq!(
        unique_paths(vec![r"D:\Steam".to_string(), "d:/steam".to_string(), r"C:\Steam".to_string()], true),
        vec![r"C:\Steam".to_string(), r"D:\Steam".to_string()]
    );
}
