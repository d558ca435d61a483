use vstd::prelude::*;

use crate::paths::{file_name, file_name_of, join};
use crate::text::{chars_of, push_str, string_of};

verus! {

/// The level the game loads as Underpass, whose file a map takes the place of.
pub const TARGET: &'static str = "Labs_Underpass_P.upk";

/// Where the game keeps its maps, below the install folder.
pub const MAPS_SUBDIR: [&'static str; 2] = ["TAGame", "CookedPCConsole"];

/// A copy of `s`.
pub fn dup_str(s: &String) -> (r: String)
    ensures
        r == *s,
{
    s.clone()
}

/// A copy of `o`.
pub fn dup_opt(o: &Option<String>) -> (r: Option<String>)
    ensures
        r == *o,
{
    match o {
        Some(s) => Some(dup_str(s)),
        None => None,
    }
}

/// A copy of `v`.
pub fn dup_strings(v: &Vec<String>) -> (r: Vec<String>)
    ensures
        r@ == v@,
{
    let mut r: Vec<String> = Vec::new();
    let mut i: usize = 0;
    while i < v.len()
        invariant
            i <= v.len(),
            r@ == v@.take(i as int),
        decreases v.len() - i,
    {
        r.push(dup_str(&v[i]));
        assert(v@.take(i + 1) =~= v@.take(i as int).push(v@[i as int]));
        i += 1;
    }
    assert(v@.take(v.len() as int) =~= v@);
    r
}

/// A game file that a map's package pushed aside, and where it was parked.
#[derive(Debug, PartialEq, Eq)]
pub struct Displaced {
    pub name: String,
    pub backup: String,
}

impl Displaced {
    /// A copy of this entry.
    pub fn duplicate(&self) -> (r: Displaced)
        ensures
            r == *self,
    {
        Displaced { name: dup_str(&self.name), backup: dup_str(&self.backup) }
    }
}

/// What is in the game folder on behalf of a map.
#[derive(Debug, PartialEq, Eq)]
pub struct Loaded {
    pub map_name: String,
    pub sha256: String,
    pub extras: Vec<String>,
    pub displaced: Vec<Displaced>,
}

impl Loaded {
    /// Whether two records hold the same things.
    pub open spec fn same(self, other: Loaded) -> bool {
        &&& self.map_name == other.map_name
        &&& self.sha256 == other.sha256
        &&& self.extras@ == other.extras@
        &&& self.displaced@ == other.displaced@
    }

    /// A copy of this record.
    pub fn duplicate(&self) -> (r: Loaded)
        ensures
            r.same(*self),
    {
        let mut displaced: Vec<Displaced> = Vec::new();
        let mut i: usize = 0;
        while i < self.displaced.len()
            invariant
                i <= self.displaced.len(),
                displaced@ == self.displaced@.take(i as int),
            decreases self.displaced.len() - i,
        {
            displaced.push(self.displaced[i].duplicate());
            assert(self.displaced@.take(i + 1) =~= self.displaced@.take(i as int).push(self.displaced@[i as int]));
            i += 1;
        }
        assert(self.displaced@.take(self.displaced.len() as int) =~= self.displaced@);
        let r = Loaded {
            map_name: dup_str(&self.map_name),
            sha256: dup_str(&self.sha256),
            extras: dup_strings(&self.extras),
            displaced,
        };
        r
    }
}

/// What is known of one game install: the original level's digest, size and
/// backup, and the map loaded in its place.
#[derive(Debug)]
pub struct Record {
    pub original_sha256: Option<String>,
    pub original_bytes: u64,
    pub backup: Option<String>,
    pub loaded: Option<Loaded>,
}

impl Default for Record {
    fn default() -> (r: Record)
        ensures
            r.original_sha256 is None,
            r.original_bytes == 0,
            r.backup is None,
            r.loaded is None,
    {
        Record { original_sha256: None, original_bytes: 0, backup: None, loaded: None }
    }
}

impl Record {
    /// A blank record: nothing backed up, nothing loaded.
    pub open spec fn blank() -> Record {
        Record { original_sha256: None, original_bytes: 0, backup: None, loaded: None }
    }

    /// Whether two records hold the same things.
    pub open spec fn same(self, other: Record) -> bool {
        &&& self.original_sha256 == other.original_sha256
        &&& self.original_bytes == other.original_bytes
        &&& self.backup == other.backup
        &&& match (self.loaded, other.loaded) {
            (Some(a), Some(b)) => a.same(b),
            (None, None) => true,
            _ => false,
        }
    }

    /// A copy of this record.
    pub fn duplicate(&self) -> (r: Record)
        ensures
            r.same(*self),
    {
        Record {
            original_sha256: dup_opt(&self.original_sha256),
            original_bytes: self.original_bytes,
            backup: dup_opt(&self.backup),
            loaded: match &self.loaded {
                Some(l) => Some(l.duplicate()),
                None => None,
            },
        }
    }
}

/// What stands in the game's Underpass slot.
#[derive(Debug, Clone, PartialEq, Eq)]
pub enum State {
    Unprotected,
    Original,
    Loaded(String),
    Foreign,
    Missing,
}

/// The folder inside `game_dir` that holds the game's maps.
pub open spec fn maps_dir_spec(game_dir: Seq<char>) -> Seq<char> {
    join(join(game_dir, "TAGame"@), "CookedPCConsole"@)
}

/// The folder inside `game_dir` that holds the game's maps.
pub fn maps_dir(game_dir: &str) -> (p: String)
    ensures
        p@ == maps_dir_spec(game_dir@),
{
    let first = crate::paths::join_str(game_dir, "TAGame");
    crate::paths::join_str(first.as_str(), "CookedPCConsole")
}

/// What the facts gathered about the Underpass file say stands there. `exists` is
/// whether the file is there, `bytes` its size, and `digest` its SHA-256, which is
/// only needed, and only given, when the size alone does not settle the answer.
pub open spec fn state_spec(record: Record, exists: bool, bytes: u64, digest: Option<Seq<char>>) -> State {
    if !exists {
        State::Missing
    } else if record.original_sha256 is None {
        State::Unprotected
    } else if bytes != record.original_bytes && record.loaded is None {
        State::Foreign
    } else {
        match digest {
            None => State::Foreign,
            Some(d) => if bytes == record.original_bytes && d == record.original_sha256.unwrap()@ {
                State::Original
            } else if record.loaded is Some && d == record.loaded.unwrap().sha256@ {
                State::Loaded(record.loaded.unwrap().map_name)
            } else {
                State::Foreign
            },
        }
    }
}

/// What stands in the Underpass slot is told by the file there. No file: it is
/// missing. No original known yet: the slot is unprotected. A file of the
/// original's size and digest is the original. Otherwise, a file whose digest is
/// the loaded map's own recorded digest is that map. Anything else is foreign.
pub proof fn the_slot_is_told_by_its_file(record: Record, bytes: u64, digest: Option<Seq<char>>, d: Seq<char>)
    ensures
        state_spec(record, false, bytes, digest) == State::Missing,
        record.original_sha256 is None ==> state_spec(record, true, bytes, digest) == State::Unprotected,
        record.original_sha256 is Some && bytes == record.original_bytes && d == record.original_sha256.unwrap()@
            ==> state_spec(record, true, bytes, Some(d)) == State::Original,
        record.original_sha256 is Some && !(bytes == record.original_bytes && d == record.original_sha256.unwrap()@)
            && record.loaded is Some && d == record.loaded.unwrap().sha256@ ==> state_spec(record, true, bytes, Some(d))
            == State::Loaded(record.loaded.unwrap().map_name),
        record.original_sha256 is Some && !(bytes == record.original_bytes && d == record.original_sha256.unwrap()@)
            && !(record.loaded is Some && d == record.loaded.unwrap().sha256@) ==> state_spec(record, true, bytes, Some(d))
            == State::Foreign,
{
}

/// Whether the digest of the file is needed to tell what stands there.
pub open spec fn needs_digest_spec(record: Record, exists: bool, bytes: u64) -> bool {
    exists && record.original_sha256 is Some && !(bytes != record.original_bytes && record.loaded is None)
}

/// Whether the Underpass file must be hashed to know what it is.
pub fn needs_digest(record: &Record, exists: bool, bytes: u64) -> (b: bool)
    ensures
        b == needs_digest_spec(*record, exists, bytes),
{
    exists && record.original_sha256.is_some() && !(bytes != record.original_bytes && record.loaded.is_none())
}

fn same_str(a: &String, b: &String) -> (r: bool)
    ensures
        r == (a@ == b@),
{
    *a == *b
}

/// Decides what stands in the Underpass slot from what was found there.
pub fn classify(record: &Record, exists: bool, bytes: u64, digest: Option<String>) -> (s: State)
    ensures
        s == state_spec(*record, exists, bytes, match digest {
            Some(d) => Some(d@),
            None => None,
        }),
{
    if !exists {
        return State::Missing;
    }
    let original = match &record.original_sha256 {
        None => return State::Unprotected,
        Some(o) => o,
    };
    let could_be_original = bytes == record.original_bytes;
    if !could_be_original && record.loaded.is_none() {
        return State::Foreign;
    }
    let d = match digest {
        None => return State::Foreign,
        Some(d) => d,
    };
    if could_be_original && same_str(&d, original) {
        return State::Original;
    }
    match &record.loaded {
        Some(loaded) => {
            if same_str(&d, &loaded.sha256) {
                State::Loaded(dup_str(&loaded.map_name))
            } else {
                State::Foreign
            }
        },
        None => State::Foreign,
    }
}

/// Where a game file that a package displaces is parked in the backup folder.
pub fn parked_path(backup_dir: &str, name: &str) -> (p: String)
    ensures
        p@ == join(backup_dir@, "displaced-"@ + name@),
{
    let mut file = String::new();
    push_str(&mut file, "displaced-");
    push_str(&mut file, name);
    crate::paths::join_str(backup_dir, file.as_str())
}

/// The backup of the original level, named by its digest, in the backup folder.
pub fn original_backup_path(backup_dir: &str, digest: &str) -> (p: String)
    ensures
        p@ == join(backup_dir@, digest@ + ".upk"@),
{
    let mut file = String::new();
    push_str(&mut file, digest);
    push_str(&mut file, ".upk");
    crate::paths::join_str(backup_dir, file.as_str())
}

/// Why a map could not be loaded or the original put back.
#[derive(Debug, Clone, PartialEq, Eq)]
pub enum Error {
    TargetMissing(String),
    NoBackup,
    BackupLost(String),
    NeedsConfirmation { bytes: u64 },
    Io(String),
}

/// What protecting the original level comes to before anything is copied: nothing
/// to do when it is known already (`Ok(false)`); a refusal when the level is
/// missing, or when the user has not agreed to back up a file of `bytes` bytes
/// that matches no known original; otherwise the level is to be backed up
/// (`Ok(true)`).
pub fn protect_step(record: &Record, target: &str, target_exists: bool, bytes: u64, confirmed: bool) -> (r: Result<bool, Error>)
    ensures
        record.original_sha256 is Some ==> r == Ok::<bool, Error>(false),
        record.original_sha256 is None && !target_exists ==> (r matches Err(Error::TargetMissing(t)) && t@ == target@),
        record.original_sha256 is None && target_exists && !confirmed ==> r == Err::<bool, Error>(Error::NeedsConfirmation { bytes }),
        record.original_sha256 is None && target_exists && confirmed ==> r == Ok::<bool, Error>(true),
{
    if record.original_sha256.is_some() {
        return Ok(false);
    }
    if !target_exists {
        return Err(Error::TargetMissing(target.to_string()));
    }
    if !confirmed {
        return Err(Error::NeedsConfirmation { bytes });
    }
    Ok(true)
}

/// The record once the original level, of digest `digest` and `bytes` bytes, is
/// backed up at `backup`.
pub fn protected(record: Record, digest: String, bytes: u64, backup: String) -> (r: Record)
    ensures
        r.original_sha256 == Some(digest),
        r.original_bytes == bytes,
        r.backup == Some(backup),
        r.loaded == record.loaded,
{
    Record { original_sha256: Some(digest), original_bytes: bytes, backup: Some(backup), loaded: record.loaded }
}

/// The packages a map put in the game folder, and the game files they pushed aside.
pub struct Placement {
    pub extras: Vec<String>,
    pub displaced: Vec<Displaced>,
}

/// Where a package goes and, when a game file of that name is there, where that
/// file is parked first; `name` is the package's file name.
#[derive(Debug, PartialEq, Eq)]
pub struct Step {
    pub name: String,
    pub dest: String,
    pub park: Option<String>,
}

/// How the package `package` is placed in the game folder `dir`: under its file
/// name, with a game file of that name (`dest_exists`) parked in `backup_dir`
/// first. None when the package has no file name, and is skipped.
pub fn step_for(package: &str, dir: &str, backup_dir: &str, dest_exists: bool) -> (step: Option<Step>)
    ensures
        match file_name(package@) {
            None => step is None,
            Some(name) => step matches Some(st) && {
                &&& st.name@ == name
                &&& st.dest@ == join(dir@, name)
                &&& if dest_exists {
                    st.park matches Some(p) && p@ == join(backup_dir@, "displaced-"@ + name)
                } else {
                    st.park is None
                }
            },
        },
{
    let name = match file_name_of(&chars_of(package)) {
        Some(n) => string_of(&n),
        None => return None,
    };
    let dest = crate::paths::join_str(dir, name.as_str());
    let park = if dest_exists {
        Some(parked_path(backup_dir, name.as_str()))
    } else {
        None
    };
    Some(Step { name, dest, park })
}

impl Placement {
    /// Nothing placed yet.
    pub fn new() -> (p: Placement)
        ensures
            p.extras@.len() == 0,
            p.displaced@.len() == 0,
    {
        Placement { extras: Vec::new(), displaced: Vec::new() }
    }

    /// What a loaded map placed, read back from its record.
    pub fn of(loaded: &Loaded) -> (p: Placement)
        ensures
            p.extras@ == loaded.extras@,
            p.displaced@ == loaded.displaced@,
    {
        let l = loaded.duplicate();
        Placement { extras: l.extras, displaced: l.displaced }
    }

    /// The game file that `step` parks is parked: it is recorded, to be put back
    /// when the map leaves. A step that parks nothing records nothing.
    pub fn parked(&mut self, step: &Step)
        ensures
            final(self).extras@ == old(self).extras@,
            step.park is None ==> final(self).displaced@ == old(self).displaced@,
            step.park matches Some(p) ==> {
                &&& final(self).displaced@.len() == old(self).displaced@.len() + 1
                &&& final(self).displaced@.drop_last() == old(self).displaced@
                &&& final(self).displaced@.last().name == step.name
                &&& final(self).displaced@.last().backup == p
            },
    {
        match &step.park {
            Some(p) => {
                let ghost before = self.displaced@;
                self.displaced.push(Displaced { name: dup_str(&step.name), backup: dup_str(p) });
                assert(self.displaced@.drop_last() =~= before);
            },
            None => {},
        }
    }

    /// The package of `step` is in the game folder: it is recorded, to be taken
    /// out when the map leaves.
    pub fn placed(&mut self, step: &Step)
        ensures
            final(self).displaced@ == old(self).displaced@,
            final(self).extras@.len() == old(self).extras@.len() + 1,
            final(self).extras@.drop_last() == old(self).extras@,
            final(self).extras@.last() == step.name,
    {
        let ghost e0 = self.extras@;
        self.extras.push(dup_str(&step.name));
        assert(self.extras@.drop_last() =~= e0);
    }

    /// The packages to take out of the game folder `dir` when the map leaves.
    pub fn removals(&self, dir: &str) -> (r: Vec<String>)
        ensures
            r@.len() == self.extras@.len(),
            forall|i: int| 0 <= i < r@.len() ==> (#[trigger] r@[i])@ == join(dir@, self.extras@[i]@),
    {
        let mut r: Vec<String> = Vec::new();
        let mut i: usize = 0;
        while i < self.extras.len()
            invariant
                i <= self.extras@.len(),
                r@.len() == i,
                forall|j: int| 0 <= j < i ==> (#[trigger] r@[j])@ == join(dir@, self.extras@[j]@),
            decreases self.extras@.len() - i,
        {
            r.push(crate::paths::join_str(dir, self.extras[i].as_str()));
            i += 1;
        }
        r
    }

    /// The parked game files to copy back into the game folder `dir`, each with
    /// where it goes, when the map leaves.
    pub fn restorations(&self, dir: &str) -> (r: Vec<(String, String)>)
        ensures
            r@.len() == self.displaced@.len(),
            forall|i: int| 0 <= i < r@.len() ==> (#[trigger] r@[i]).0 == self.displaced@[i].backup
                && r@[i].1@ == join(dir@, self.displaced@[i].name@),
    {
        let mut r: Vec<(String, String)> = Vec::new();
        let mut i: usize = 0;
        while i < self.displaced.len()
            invariant
                i <= self.displaced@.len(),
                r@.len() == i,
                forall|j: int| 0 <= j < i ==> (#[trigger] r@[j]).0 == self.displaced@[j].backup
                    && r@[j].1@ == join(dir@, self.displaced@[j].name@),
            decreases self.displaced@.len() - i,
        {
            r.push((dup_str(&self.displaced[i].backup), crate::paths::join_str(dir, self.displaced[i].name.as_str())));
            i += 1;
        }
        r
    }

    /// The record of a map loaded with these packages, of level digest `sha256`.
    pub fn into_loaded(self, map_name: String, sha256: String) -> (l: Loaded)
        ensures
            l.map_name == map_name,
            l.sha256 == sha256,
            l.extras@ == self.extras@,
            l.displaced@ == self.displaced@,
    {
        Loaded { map_name, sha256, extras: self.extras, displaced: self.displaced }
    }
}

/// Loading a map starts only once the original is backed up.
pub fn install_step(record: &Record) -> (r: Result<(), Error>)
    ensures
        record.original_sha256 is None ==> r == Err::<(), Error>(Error::NoBackup),
        record.original_sha256 is Some ==> r is Ok,
{
    if record.original_sha256.is_none() {
        Err(Error::NoBackup)
    } else {
        Ok(())
    }
}

/// Putting the original back starts only when there is a backup that still
/// exists (`backup_exists`); the backup to copy back is returned.
pub fn restore_step(record: &Record, backup_exists: bool) -> (r: Result<String, Error>)
    ensures
        record.backup is None ==> r == Err::<String, Error>(Error::NoBackup),
        record.backup is Some && !backup_exists ==> r == Err::<String, Error>(Error::BackupLost(record.backup->0)),
        record.backup is Some && backup_exists ==> r == Ok::<String, Error>(record.backup->0),
{
    match &record.backup {
        None => Err(Error::NoBackup),
        Some(b) => if backup_exists {
            Ok(dup_str(b))
        } else {
            Err(Error::BackupLost(dup_str(b)))
        },
    }
}


impl Error {
    /// What went wrong, in words. `size` is how the level's size reads, in
    /// megabytes with one decimal, for the question about an unknown level.
    pub open spec fn message_spec(&self, size: Seq<char>) -> Seq<char> {
        match self {
            Error::TargetMissing(p) => "no Labs_Underpass_P.upk at "@ + p@,
            Error::NoBackup => "no original has been backed up yet"@,
            Error::BackupLost(p) => "backup missing from "@ + p@,
            Error::NeedsConfirmation { .. } => "Labs_Underpass_P.upk is "@ + size + " MB, which does not match a known original"@,
            Error::Io(e) => e@,
        }
    }

    /// What went wrong, in words.
    pub fn message(&self, size: &str) -> (s: String)
        ensures
            s@ == self.message_spec(size@),
    {
        match self {
            Error::TargetMissing(p) => {
                let mut s = "no Labs_Underpass_P.upk at ".to_string();
                push_str(&mut s, p.as_str());
                s
            },
            Error::NoBackup => "no original has been backed up yet".to_string(),
            Error::BackupLost(p) => {
                let mut s = "backup missing from ".to_string();
                push_str(&mut s, p.as_str());
                s
            },
            Error::NeedsConfirmation { .. } => {
                let mut s = "Labs_Underpass_P.upk is ".to_string();
                push_str(&mut s, size);
                push_str(&mut s, " MB, which does not match a known original");
                s
            },
            Error::Io(e) => dup_str(e),
        }
    }
}

/// What a load makes of a refusal to back up the level: the user is asked
/// about a level of unknown bytes (`Ok` with its size); any other refusal is the
/// notice returned. `size` reads as in `message`.
pub fn backup_refused(err: &Error, size: &str) -> (r: Result<u64, String>)
    ensures
        match err {
            Error::NeedsConfirmation { bytes } => r == Ok::<u64, String>(*bytes),
            _ => r matches Err(n) && n@ == "Could not back up Underpass: "@ + err.message_spec(size@),
        },
{
    match err {
        Error::NeedsConfirmation { bytes } => Ok(*bytes),
        _ => {
            let mut n = "Could not back up Underpass: ".to_string();
            push_str(&mut n, err.message(size).as_str());
            Err(n)
        },
    }
}

/// What a load that failed part way tells the user, for the map `name`.
pub fn load_failed(name: &str, err: &Error, size: &str) -> (n: String)
    ensures
        n@ == "Could not load "@ + name@ + ": "@ + err.message_spec(size@),
{
    let mut n = "Could not load ".to_string();
    push_str(&mut n, name);
    push_str(&mut n, ": ");
    push_str(&mut n, err.message(size).as_str());
    n
}
} // verus!
