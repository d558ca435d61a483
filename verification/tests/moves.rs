use std::collections::HashMap;

use rldeck::install::{step_for, Placement};
use rldeck::moves::{level_op, placing_ops, undo_ops, FileOp};

type Disk = HashMap<String, Vec<u8>>;

fn carry_out(disk: &mut Disk, op: &FileOp) {
    match op {
        FileOp::Copy { from, to } => {
            if let Some(bytes) = disk.get(from).cloned() {
                disk.insert(to.clone(), bytes);
            }
        }
        FileOp::Remove { path } | FileOp::Discard { path } => {
            disk.remove(path);
        }
    }
}

const DIR: &str = "/game/TAGame/CookedPCConsole";
const BACKUPS: &str = "/backups";

fn stock() -> Disk {
    let mut disk = Disk::new();
    disk.insert(format!("{DIR}/Labs_Underpass_P.upk"), vec![1; 4]);
    disk.insert(format!("{DIR}/Shared.upk"), vec![2; 3]);
    disk.insert(format!("{BACKUPS}/original.upk"), vec![1; 4]);
    disk.insert("/maps/Cool/Cool_P.upk".to_string(), vec![7; 5]);
    disk.insert("/maps/Cool/Shared.upk".to_string(), vec![8; 2]);
    disk.insert("/maps/Cool/Extra.upk".to_string(), vec![9; 1]);
    disk
}

fn load(disk: &mut Disk, packages: &[&str]) -> Placement {
    let mut placement = Placement::new();
    for package in packages {
        let name = package.rsplit('/').next().unwrap();
        let exists = disk.contains_key(&format!("{DIR}/{name}"));
        let step = step_for(package, DIR, BACKUPS, exists).unwrap();
        let ops = placing_ops(&step, package);
        if step.park.is_some() {
            carry_out(disk, &ops[0]);
            placement.parked(&step);
        }
        carry_out(disk, ops.last().unwrap());
        placement.placed(&step);
    }
    placement
}

#[test]
fn placing_a_package_over_a_game_file_parks_the_game_file_first() {
    let step = step_for("/maps/Cool/Shared.upk", DIR, BACKUPS, true).unwrap();
    let ops = placing_ops(&step, "/maps/Cool/Shared.upk");
    assert_eq!(
        ops,
        vec![
            FileOp::Copy { from: format!("{DIR}/Shared.upk"), to: format!("{BACKUPS}/displaced-Shared.upk") },
            FileOp::Copy { from: "/maps/Cool/Shared.upk".to_string(), to: format!("{DIR}/Shared.upk") },
        ]
    );
}

#[test]
fn undoing_takes_packages_out_then_puts_parked_files_back() {
    let mut disk = stock();
    let placement = load(&mut disk, &["/maps/Cool/Extra.upk", "/maps/Cool/Shared.upk"]);
    assert_eq!(
        undo_ops(&placement, DIR),
        vec![
            FileOp::Remove { path: format!("{DIR}/Extra.upk") },
            FileOp::Remove { path: format!("{DIR}/Shared.upk") },
            FileOp::Copy { from: format!("{BACKUPS}/displaced-Shared.upk"), to: format!("{DIR}/Shared.upk") },
            FileOp::Discard { path: format!("{BACKUPS}/displaced-Shared.upk") },
        ]
    );
}

#[test]
fn install_then_restore_gives_back_the_exact_folder() {
    let before = stock();
    let mut disk = before.clone();
    let placement = load(&mut disk, &["/maps/Cool/Extra.upk", "/maps/Cool/Shared.upk"]);
    carry_out(&mut disk, &level_op("/maps/Cool/Cool_P.upk", DIR));
    assert_eq!(disk[&format!("{DIR}/Labs_Underpass_P.upk")], vec![7; 5]);
    assert_eq!(disk[&format!("{DIR}/Shared.upk")], vec![8; 2]);

    for op in undo_ops(&placement, DIR) {
        carry_out(&mut disk, &op);
    }
    carry_out(&mut disk, &level_op(&format!("{BACKUPS}/original.upk"), DIR));
    assert_eq!(disk, before);
}

#[test]
fn a_load_that_stops_part_way_is_undone_completely() {
    let before = stock();
    let mut disk = before.clone();
    let placement = load(&mut disk, &["/maps/Cool/Shared.upk"]);
    for op in undo_ops(&placement, DIR) {
        carry_out(&mut disk, &op);
    }
    assert_eq!(disk, before);
}
