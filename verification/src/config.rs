use vstd::prelude::*;

use crate::install::Record;
use crate::paths::join;

verus! {

/// What went wrong while saving the settings.
#[derive(Debug, Clone, PartialEq, Eq)]
pub enum Error {
    Serialize(String),
    Write(String, String),
}

impl Error {
    /// The sentence shown for this error.
    pub fn message(&self) -> (s: String)
        ensures
            match self {
                Error::Serialize(e) => s@ == e@,
                Error::Write(path, e) => s@ == path@ + ": "@ + e@,
            },
    {
        match self {
            Error::Serialize(e) => e.clone(),
            Error::Write(path, e) => {
                let mut s = path.clone();
                crate::text::push_str(&mut s, ": ");
                crate::text::push_str(&mut s, e.as_str());
                s
            },
        }
    }
}

/// The saved settings: the chosen folders, a record per game install, and the
/// keys of the starred maps.
#[derive(Debug)]
pub struct Config {
    pub game_dir: Option<String>,
    pub library_dir: Option<String>,
    pub records: Vec<(String, Record)>,
    pub starred: Vec<String>,
}

/// The record kept under `k`, if there is one.
pub open spec fn lookup(recs: Seq<(String, Record)>, k: Seq<char>) -> Option<Record> {
    if exists|i: int| 0 <= i < recs.len() && (#[trigger] recs[i]).0@ == k {
        let i = choose|i: int| 0 <= i < recs.len() && (#[trigger] recs[i]).0@ == k;
        Some(recs[i].1)
    } else {
        None
    }
}

proof fn lemma_lookup_at(recs: Seq<(String, Record)>, k: Seq<char>, i: int)
    requires
        0 <= i < recs.len(),
        recs[i].0@ == k,
        forall|a: int, b: int| 0 <= a < recs.len() && 0 <= b < recs.len() && a != b ==> (#[trigger] recs[a]).0@ != (#[trigger] recs[b]).0@,
    ensures
        lookup(recs, k) == Some(recs[i].1),
{
    let j = choose|j: int| 0 <= j < recs.len() && (#[trigger] recs[j]).0@ == k;
    assert(recs[j].0@ == k);
}

/// Where the record kept under `k` stands, or the number of records.
fn index_of_key(recs: &Vec<(String, Record)>, k: &String) -> (r: usize)
    ensures
        r <= recs@.len(),
        forall|j: int| 0 <= j < r ==> (#[trigger] recs@[j]).0@ != k@,
        r < recs@.len() ==> recs@[r as int].0@ == k@,
{
    let mut i: usize = 0;
    while i < recs.len()
        invariant
            i <= recs@.len(),
            forall|j: int| 0 <= j < i ==> (#[trigger] recs@[j]).0@ != k@,
        decreases recs.len() - i,
    {
        if recs[i].0 == *k {
            return i;
        }
        i += 1;
    }
    i
}

/// Where `k` stands in `names`, or their number.
fn index_of_name(names: &Vec<String>, k: &String) -> (r: usize)
    ensures
        r <= names@.len(),
        forall|j: int| 0 <= j < r ==> (#[trigger] names@[j])@ != k@,
        r < names@.len() ==> names@[r as int]@ == k@,
{
    let mut i: usize = 0;
    while i < names.len()
        invariant
            i <= names@.len(),
            forall|j: int| 0 <= j < i ==> (#[trigger] names@[j])@ != k@,
        decreases names.len() - i,
    {
        if names[i] == *k {
            return i;
        }
        i += 1;
    }
    i
}

fn owned(s: &str) -> (r: String)
    ensures
        r@ == s@,
{
    crate::text::string_of(&crate::text::chars_of(s))
}

impl Default for Config {
    fn default() -> (c: Config)
        ensures
            c.wf(),
            c.game_dir is None,
            c.library_dir is None,
            c.stars() == Set::<Seq<char>>::empty(),
            forall|k: Seq<char>| c.record_at(k) is None,
    {
        Config::new()
    }
}

impl Config {
    /// The keys of the starred maps.
    pub open spec fn stars(&self) -> Set<Seq<char>> {
        self.starred@.map_values(|s: String| s@).to_set()
    }

    /// The record of the install whose key is `k`.
    pub open spec fn record_at(&self, k: Seq<char>) -> Option<Record> {
        lookup(self.records@, k)
    }

    /// No install has two records and no map is starred twice.
    pub open spec fn wf(&self) -> bool {
        &&& forall|a: int, b: int|
            0 <= a < self.records@.len() && 0 <= b < self.records@.len() && a != b ==> (#[trigger] self.records@[a]).0@
                != (#[trigger] self.records@[b]).0@
        &&& forall|a: int, b: int|
            0 <= a < self.starred@.len() && 0 <= b < self.starred@.len() && a != b ==> (#[trigger] self.starred@[a])@
                != (#[trigger] self.starred@[b])@
    }

    /// A config with no folders, no records and no stars.
    pub fn new() -> (c: Config)
        ensures
            c.wf(),
            c.game_dir is None,
            c.library_dir is None,
            c.stars() == Set::<Seq<char>>::empty(),
            forall|k: Seq<char>| c.record_at(k) is None,
    {
        let c = Config { game_dir: None, library_dir: None, records: Vec::new(), starred: Vec::new() };
        assert(c.stars() =~= Set::<Seq<char>>::empty());
        c
    }

    /// The record of the install in `game_dir`, or a blank one; `windows` says
    /// whether folders are told apart as Windows does.
    pub fn record(&self, game_dir: &str, windows: bool) -> (r: Record)
        requires
            self.wf(),
        ensures
            match self.record_at(key_spec(game_dir@, windows)) {
                Some(found) => r.same(found),
                None => r.same(Record::blank()),
            },
    {
        let k = key(game_dir, windows);
        let i = index_of_key(&self.records, &k);
        if i < self.records.len() {
            proof {
                lemma_lookup_at(self.records@, k@, i as int);
            }
            return self.records[i].1.duplicate();
        }
        Record::default()
    }

    /// Keeps `record` as the record of the install in `game_dir`; `windows` says
    /// whether folders are told apart as Windows does.
    pub fn set_record(&mut self, game_dir: &str, windows: bool, record: Record)
        requires
            old(self).wf(),
        ensures
            final(self).wf(),
            final(self).record_at(key_spec(game_dir@, windows)) == Some(record),
            forall|k: Seq<char>| k != key_spec(game_dir@, windows) ==> final(self).record_at(k) == old(self).record_at(k),
            final(self).stars() == old(self).stars(),
            final(self).game_dir == old(self).game_dir,
            final(self).library_dir == old(self).library_dir,
    {
        let k = key(game_dir, windows);
        let ghost old_recs = self.records@;
        let i = index_of_key(&self.records, &k);
        let ghost new_recs: Seq<(String, Record)>;
        if i < self.records.len() {
            self.records.set(i, (k, record));
            proof {
                new_recs = self.records@;
                assert(new_recs == old_recs.update(i as int, new_recs[i as int]));
            }
        } else {
            self.records.push((k, record));
            proof {
                new_recs = self.records@;
            }
        }
        proof {
            let key_now = key_spec(game_dir@, windows);
            assert forall|a: int, b: int|
                0 <= a < new_recs.len() && 0 <= b < new_recs.len() && a != b implies (#[trigger] new_recs[a]).0@
                != (#[trigger] new_recs[b]).0@ by {
                if a != i && b != i {
                    assert(new_recs[a] == old_recs[a] && new_recs[b] == old_recs[b]);
                }
            }
            lemma_lookup_at(new_recs, key_now, i as int);
            assert forall|k2: Seq<char>| k2 != key_now implies lookup(new_recs, k2) == lookup(old_recs, k2) by {
                if exists|j: int| 0 <= j < old_recs.len() && (#[trigger] old_recs[j]).0@ == k2 {
                    let j = choose|j: int| 0 <= j < old_recs.len() && (#[trigger] old_recs[j]).0@ == k2;
                    assert(j != i);
                    assert(new_recs[j] == old_recs[j]);
                    lemma_lookup_at(old_recs, k2, j);
                    lemma_lookup_at(new_recs, k2, j);
                } else {
                    assert forall|j: int| 0 <= j < new_recs.len() implies (#[trigger] new_recs[j]).0@ != k2 by {
                        if j != i {
                            assert(new_recs[j] == old_recs[j]);
                        }
                    }
                }
            }
        }
    }

    /// Whether the map with key `map_key` is starred.
    pub fn is_starred(&self, map_key: &str) -> (b: bool)
        ensures
            b == self.stars().contains(map_key@),
    {
        let target = owned(map_key);
        let i = index_of_name(&self.starred, &target);
        if i < self.starred.len() {
            assert(self.starred@.map_values(|s: String| s@)[i as int] == map_key@);
            return true;
        }
        proof {
            if self.stars().contains(map_key@) {
                let names = self.starred@.map_values(|s: String| s@);
                let j = choose|j: int| 0 <= j < names.len() && #[trigger] names[j] == map_key@;
                assert(self.starred@[j]@ == map_key@);
            }
        }
        false
    }

    /// Flips the star of a map and says whether it is starred now.
    pub fn toggle_star(&mut self, map_key: &str) -> (starred: bool)
        requires
            old(self).wf(),
        ensures
            final(self).wf(),
            starred == !old(self).stars().contains(map_key@),
            final(self).stars() == if starred {
                old(self).stars().insert(map_key@)
            } else {
                old(self).stars().remove(map_key@)
            },
            forall|k: Seq<char>| final(self).record_at(k) == old(self).record_at(k),
            final(self).records@ == old(self).records@,
            final(self).game_dir == old(self).game_dir,
            final(self).library_dir == old(self).library_dir,
    {
        let starred = !self.is_starred(map_key);
        self.set_star(map_key, starred);
        starred
    }

    /// Stars or unstars a map.
    pub fn set_star(&mut self, map_key: &str, starred: bool)
        requires
            old(self).wf(),
        ensures
            final(self).wf(),
            final(self).stars() == if starred {
                old(self).stars().insert(map_key@)
            } else {
                old(self).stars().remove(map_key@)
            },
            forall|k: Seq<char>| final(self).record_at(k) == old(self).record_at(k),
            final(self).records@ == old(self).records@,
            final(self).game_dir == old(self).game_dir,
            final(self).library_dir == old(self).library_dir,
    {
        let ghost before = self.starred@;
        let target = owned(map_key);
        let i = index_of_name(&self.starred, &target);
        let ghost names = before.map_values(|s: String| s@);
        if starred {
            if i == self.starred.len() {
                self.starred.push(target);
                proof {
                    let after = self.starred@;
                    assert(after.map_values(|s: String| s@) =~= names.push(map_key@));
                    assert forall|a: int, b: int|
                        0 <= a < after.len() && 0 <= b < after.len() && a != b implies (#[trigger] after[a])@
                        != (#[trigger] after[b])@ by {
                        if a < before.len() && b < before.len() {
                            assert(after[a] == before[a] && after[b] == before[b]);
                        }
                    }
                    assert(names.push(map_key@).to_set() =~= names.to_set().insert(map_key@)) by {
                        assert forall|x: Seq<char>| #[trigger] names.push(map_key@).to_set().contains(x) == names.to_set().insert(map_key@).contains(x) by {
                            if names.push(map_key@).contains(x) {
                                let pushed = names.push(map_key@);
                                let j = choose|j: int| 0 <= j < pushed.len() && #[trigger] pushed[j] == x;
                                if j < names.len() {
                                    assert(names[j] == x);
                                }
                            }
                            if names.contains(x) {
                                let j = choose|j: int| 0 <= j < names.len() && #[trigger] names[j] == x;
                                assert(names.push(map_key@)[j] == x);
                            }
                            if x == map_key@ {
                                assert(names.push(map_key@)[names.len() as int] == x);
                            }
                        }
                    }
                }
            } else {
                proof {
                    assert(names[i as int] == map_key@);
                    assert(names.to_set().insert(map_key@) =~= names.to_set());
                }
            }
        } else {
            if i < self.starred.len() {
                self.starred.remove(i);
                proof {
                    let after = self.starred@;
                    assert(after =~= before.remove(i as int));
                    assert forall|a: int, b: int|
                        0 <= a < after.len() && 0 <= b < after.len() && a != b implies (#[trigger] after[a])@
                        != (#[trigger] after[b])@ by {
                        let a2 = if a < i { a } else { a + 1 };
                        let b2 = if b < i { b } else { b + 1 };
                        assert(after[a] == before[a2] && after[b] == before[b2]);
                    }
                    assert(after.map_values(|s: String| s@).to_set() =~= names.to_set().remove(map_key@)) by {
                        let an = after.map_values(|s: String| s@);
                        assert forall|x: Seq<char>| #[trigger] an.to_set().contains(x) == names.to_set().remove(map_key@).contains(x) by {
                            if an.contains(x) {
                                let j = choose|j: int| 0 <= j < an.len() && #[trigger] an[j] == x;
                                let j2 = if j < i { j } else { j + 1 };
                                assert(names[j2] == x);
                                assert(j2 != i);
                                assert(names[i as int] == map_key@);
                                assert(before[j2]@ != before[i as int]@);
                            }
                            if names.contains(x) && x != map_key@ {
                                let j = choose|j: int| 0 <= j < names.len() && #[trigger] names[j] == x;
                                assert(j != i);
                                let j2 = if j < i { j } else { j - 1 };
                                assert(an[j2] == x);
                            }
                        }
                    }
                }
            } else {
                proof {
                    assert(!names.contains(map_key@)) by {
                        if names.contains(map_key@) {
                            let j = choose|j: int| 0 <= j < names.len() && #[trigger] names[j] == map_key@;
                            assert(before[j]@ == map_key@);
                        }
                    }
                    assert(names.to_set().remove(map_key@) =~= names.to_set());
                }
            }
        }
    }
}

/// Starring a map twice leaves the stars as they were.
pub proof fn toggling_twice_changes_nothing(stars: Set<Seq<char>>, k: Seq<char>)
    ensures
        ({
            let once = if stars.contains(k) { stars.remove(k) } else { stars.insert(k) };
            let twice = if once.contains(k) { once.remove(k) } else { once.insert(k) };
            twice == stars
        }),
{
    let once = if stars.contains(k) { stars.remove(k) } else { stars.insert(k) };
    let twice = if once.contains(k) { once.remove(k) } else { once.insert(k) };
    assert(twice =~= stars);
}

/// The key a game folder's record is kept under: the folder's key, on Windows
/// (`windows`) or elsewhere (see `game::path_key`).
pub open spec fn key_spec(game_dir: Seq<char>, windows: bool) -> Seq<char> {
    crate::game::path_key_spec(game_dir, windows)
}

fn key(game_dir: &str, windows: bool) -> (k: String)
    ensures
        k@ == key_spec(game_dir@, windows),
{
    crate::game::path_key(game_dir, windows)
}

/// `dirs::config_dir`, as a string.
#[verifier::external_body]
fn config_dir() -> Option<String> {
    dirs::config_dir().map(|p| p.to_string_lossy().into_owned())
}

/// `dirs::home_dir`, as a string.
#[verifier::external_body]
pub(crate) fn home_dir() -> Option<String> {
    dirs::home_dir().map(|p| p.to_string_lossy().into_owned())
}

/// `dirs::data_local_dir`, as a string.
#[verifier::external_body]
fn data_local_dir() -> Option<String> {
    dirs::data_local_dir().map(|p| p.to_string_lossy().into_owned())
}

/// The first folder that is known, or the working folder.
pub fn first_known(a: Option<String>, b: Option<String>, c: Option<String>) -> (r: String)
    ensures
        r@ == match (a, b, c) {
            (Some(x), _, _) => x@,
            (None, Some(y), _) => y@,
            (None, None, Some(z)) => z@,
            (None, None, None) => "."@,
        },
{
    match a {
        Some(x) => x,
        None => match b {
            Some(y) => y,
            None => match c {
                Some(z) => z,
                None => ".".to_string(),
            },
        },
    }
}

/// Where the settings file is kept: `config.json` in an `RLDeck` folder of the
/// user's configuration folder, else of the home folder, else of the working folder.
pub fn path() -> (p: String)
    ensures
        exists|base: Seq<char>| p@ == join(join(base, "RLDeck"@), "config.json"@),
{
    let base = first_known(config_dir(), home_dir(), None);
    let dir = crate::paths::join_str(base.as_str(), "RLDeck");
    crate::paths::join_str(dir.as_str(), "config.json")
}

/// The folder a game install's original level is backed up in, named by a digest
/// of the install's folder, under `root`.
pub open spec fn slot_spec(root: Seq<char>, game_dir: Seq<char>) -> Seq<char> {
    join(root, crate::hash::hex_of(crate::hash::sha256_of(vstd::utf8::encode_utf8(game_dir))).take(12))
}

/// The folder a game install's original level is backed up in, under `root`.
pub fn slot_in(root: &str, game_dir: &str) -> (p: String)
    ensures
        p@ == slot_spec(root@, game_dir@),
{
    let digest = crate::hash::short(game_dir.as_bytes(), 6);
    crate::paths::join_str(root, digest.as_str())
}

/// The folder a game install's original level is backed up in: a digest of the
/// install's folder, inside `RLDeck/originals` of the user's local data folder.
pub fn backup_slot(game_dir: &str) -> (p: String)
    ensures
        exists|base: Seq<char>| p@ == slot_spec(join(join(base, "RLDeck"@), "originals"@), game_dir@),
{
    let base = first_known(data_local_dir(), config_dir(), home_dir());
    let rl = crate::paths::join_str(base.as_str(), "RLDeck");
    let root = crate::paths::join_str(rl.as_str(), "originals");
    slot_in(root.as_str(), game_dir)
}

} // verus!
