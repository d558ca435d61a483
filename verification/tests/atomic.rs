use rldeck::atomic::part_of;

#[test]
fn destinations_sharing_a_stem_do_not_share_a_staging_file() {
    let dir = "/tmp/stems";
    assert_ne!(part_of(&format!("{dir}/a.jpg")), part_of(&format!("{dir}/a.png")));
}

#[test]
fn the_staging_file_sits_beside_its_destination() {
    assert_eq!(part_of("/lib/Cool/info.json"), "/lib/Cool/info.json.part");
    assert_eq!(part_of("config.json"), "config.json.part");
}

#[test]
fn a_windows_destination_is_read_at_its_backslashes() {
    assert_eq!(part_of(r"C:\lib\Cool\info.json"), r"C:\lib\Cool/info.json.part");
}
