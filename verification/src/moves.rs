//! The file operations that put a map's packages into the game folder and take
//! them out again, as plans that the disk carries out one operation at a time;
//! and why taking them out gives the folder back as it was.
use vstd::prelude::*;

use crate::install::{dup_str, Displaced, Placement, Step, TARGET};
use crate::paths::{join, join_str};
use crate::text::{chars_of, string_of};

verus! {

/// A disk: the bytes of the file at each path that holds one.
pub type Disk = Map<Seq<char>, Seq<u8>>;

/// What a file operation does, told by paths.
pub enum Move {
    /// The file at the first path is copied to the second.
    Copy(Seq<char>, Seq<char>),
    /// The file at the path is removed.
    Remove(Seq<char>),
}

/// A file operation for the disk to carry out.
#[derive(Debug, PartialEq, Eq)]
pub enum FileOp {
    /// Copy the file at `from` to `to` all at once, replacing what is there;
    /// nothing happens when no file is at `from`.
    Copy { from: String, to: String },
    /// Remove the file at `path`, when there is one.
    Remove { path: String },
    /// Remove the file at `path` when that can be done; a failure is let go.
    Discard { path: String },
}

impl FileOp {
    /// What the operation does.
    pub open spec fn as_move(self) -> Move {
        match self {
            FileOp::Copy { from, to } => Move::Copy(from@, to@),
            FileOp::Remove { path } => Move::Remove(path@),
            FileOp::Discard { path } => Move::Remove(path@),
        }
    }
}

/// What a list of file operations does.
pub open spec fn moves_of(ops: Seq<FileOp>) -> Seq<Move> {
    ops.map_values(|o: FileOp| o.as_move())
}

/// The disk once `m` is done.
pub open spec fn apply(d: Disk, m: Move) -> Disk {
    match m {
        Move::Copy(from, to) => if d.contains_key(from) {
            d.insert(to, d[from])
        } else {
            d
        },
        Move::Remove(path) => d.remove(path),
    }
}

/// The disk once `ms` are done, first first.
pub open spec fn run(d: Disk, ms: Seq<Move>) -> Disk
    decreases ms.len(),
{
    if ms.len() == 0 {
        d
    } else {
        run(apply(d, ms[0]), ms.drop_first())
    }
}

/// The moves that put `package` in place at `dest`; the game file there, when it
/// is parked, is first copied to `park`.
pub open spec fn placing(package: Seq<char>, dest: Seq<char>, park: Option<Seq<char>>) -> Seq<Move> {
    match park {
        Some(p) => seq![Move::Copy(dest, p), Move::Copy(package, dest)],
        None => seq![Move::Copy(package, dest)],
    }
}

/// The moves that take the packages at `placed` out.
pub open spec fn removing(placed: Seq<Seq<char>>) -> Seq<Move> {
    placed.map_values(|x: Seq<char>| Move::Remove(x))
}

/// The moves that copy each parked file back where it came from, then let the
/// parked copy go.
pub open spec fn putting_back(parked: Seq<(Seq<char>, Seq<char>)>) -> Seq<Move>
    decreases parked.len(),
{
    if parked.len() == 0 {
        Seq::empty()
    } else {
        seq![Move::Copy(parked[0].0, parked[0].1), Move::Remove(parked[0].0)] + putting_back(parked.drop_first())
    }
}

/// The moves that undo a placement: its packages out, then the parked files back.
pub open spec fn undoing(placed: Seq<Seq<char>>, parked: Seq<(Seq<char>, Seq<char>)>) -> Seq<Move> {
    removing(placed) + putting_back(parked)
}

/// Where the packages named `extras` stand in `dir`.
pub open spec fn placed_in(dir: Seq<char>, extras: Seq<String>) -> Seq<Seq<char>> {
    extras.map_values(|n: String| join(dir, n@))
}

/// Each file of `displaced` parked, with where in `dir` it goes back.
pub open spec fn parked_in(dir: Seq<char>, displaced: Seq<Displaced>) -> Seq<(Seq<char>, Seq<char>)> {
    displaced.map_values(|e: Displaced| (e.backup@, join(dir, e.name@)))
}

/// Whether `x` is where a file is parked.
pub open spec fn is_park(parked: Seq<(Seq<char>, Seq<char>)>, x: Seq<char>) -> bool {
    exists|i: int| 0 <= i < parked.len() && parked[i].0 == x
}

/// Whether `x` is where a parked file goes back.
pub open spec fn is_home(parked: Seq<(Seq<char>, Seq<char>)>, x: Seq<char>) -> bool {
    exists|i: int| 0 <= i < parked.len() && parked[i].1 == x
}

/// Whether `d` can be brought back to `d0` by undoing a placement with packages at
/// `placed` and parked files `parked`; the level at `level` is left to whoever
/// writes it. Every path neither placed, nor a park, nor the level holds what it
/// held in `d0`; every parked file holds the game file it stands for, which `d0`
/// had; a package stands where `d0` had nothing or where a parked file goes back;
/// and no path plays two of these parts.
pub open spec fn recoverable(
    d0: Disk,
    d: Disk,
    placed: Seq<Seq<char>>,
    parked: Seq<(Seq<char>, Seq<char>)>,
    level: Seq<char>,
) -> bool {
    &&& placed.no_duplicates()
    &&& !placed.contains(level)
    &&& forall|i: int, j: int| 0 <= i < j < parked.len() ==> parked[i].0 != parked[j].0 && parked[i].1 != parked[j].1
    &&& forall|i: int, j: int| 0 <= i < parked.len() && 0 <= j < parked.len() ==> parked[i].0 != parked[j].1
    &&& forall|i: int, j: int| 0 <= i < parked.len() && 0 <= j < placed.len() ==> parked[i].0 != placed[j]
    &&& forall|i: int|
        0 <= i < parked.len() ==> {
            &&& parked[i].0 != level
            &&& parked[i].1 != level
            &&& !d0.contains_key(parked[i].0)
            &&& d0.contains_key(parked[i].1)
            &&& d.contains_key(parked[i].0)
            &&& d[parked[i].0] == d0[parked[i].1]
        }
    &&& forall|j: int| 0 <= j < placed.len() ==> is_home(parked, placed[j]) || !d0.contains_key(placed[j])
    &&& forall|x: Seq<char>|
        x != level && !placed.contains(x) && !is_park(parked, x) ==> {
            &&& #[trigger] d.contains_key(x) == d0.contains_key(x)
            &&& d0.contains_key(x) ==> d[x] == d0[x]
        }
}

/// `recoverable`, taken clause by clause.
proof fn lemma_recoverable(
    d0: Disk,
    d: Disk,
    placed: Seq<Seq<char>>,
    parked: Seq<(Seq<char>, Seq<char>)>,
    level: Seq<char>,
)
    requires
        placed.no_duplicates(),
        !placed.contains(level),
        forall|i: int, j: int| 0 <= i < j < parked.len() ==> parked[i].0 != parked[j].0 && parked[i].1 != parked[j].1,
        forall|i: int, j: int| 0 <= i < parked.len() && 0 <= j < parked.len() ==> parked[i].0 != parked[j].1,
        forall|i: int, j: int| 0 <= i < parked.len() && 0 <= j < placed.len() ==> parked[i].0 != placed[j],
        forall|i: int|
            0 <= i < parked.len() ==> {
                &&& parked[i].0 != level
                &&& parked[i].1 != level
                &&& !d0.contains_key(parked[i].0)
                &&& d0.contains_key(parked[i].1)
                &&& d.contains_key(parked[i].0)
                &&& d[parked[i].0] == d0[parked[i].1]
            },
        forall|j: int| 0 <= j < placed.len() ==> is_home(parked, placed[j]) || !d0.contains_key(placed[j]),
        forall|x: Seq<char>|
            x != level && !placed.contains(x) && !is_park(parked, x) ==> {
                &&& #[trigger] d.contains_key(x) == d0.contains_key(x)
                &&& d0.contains_key(x) ==> d[x] == d0[x]
            },
    ensures
        recoverable(d0, d, placed, parked, level),
{
}

proof fn lemma_run_one(d: Disk, m: Move)
    ensures
        run(d, seq![m]) == apply(d, m),
{
    assert(seq![m].drop_first() =~= Seq::<Move>::empty());
    assert(seq![m][0] == m);
    assert(run(apply(d, m), Seq::<Move>::empty()) == apply(d, m));
}

proof fn lemma_run_append(d: Disk, a: Seq<Move>, b: Seq<Move>)
    ensures
        run(d, a + b) == run(run(d, a), b),
    decreases a.len(),
{
    if a.len() == 0 {
        assert(a + b =~= b);
    } else {
        assert((a + b).drop_first() =~= a.drop_first() + b);
        assert((a + b)[0] == a[0]);
        lemma_run_append(apply(d, a[0]), a.drop_first(), b);
    }
}

proof fn lemma_removing(d: Disk, xs: Seq<Seq<char>>)
    ensures
        forall|x: Seq<char>|
            #[trigger] run(d, removing(xs)).contains_key(x) == (d.contains_key(x) && !xs.contains(x)),
        forall|x: Seq<char>| run(d, removing(xs)).contains_key(x) ==> #[trigger] run(d, removing(xs))[x] == d[x],
    decreases xs.len(),
{
    if xs.len() > 0 {
        let d1 = d.remove(xs[0]);
        assert(removing(xs).drop_first() =~= removing(xs.drop_first()));
        assert(removing(xs)[0] == Move::Remove(xs[0]));
        lemma_removing(d1, xs.drop_first());
        let r = run(d, removing(xs));
        assert(r == run(d1, removing(xs.drop_first())));
        assert forall|x: Seq<char>| #[trigger] r.contains_key(x) == (d.contains_key(x) && !xs.contains(x)) by {
            if xs.drop_first().contains(x) {
                let k = choose|k: int| 0 <= k < xs.drop_first().len() && xs.drop_first()[k] == x;
                assert(xs[k + 1] == x);
            }
            if xs.contains(x) && x != xs[0] {
                let k = choose|k: int| 0 <= k < xs.len() && xs[k] == x;
                assert(xs.drop_first()[k - 1] == x);
            }
            if x == xs[0] {
                assert(xs[0] == x);
            }
        }
    } else {
        assert forall|x: Seq<char>| #[trigger] run(d, removing(xs)).contains_key(x) == (d.contains_key(x) && !xs.contains(x)) by {
            assert(run(d, removing(xs)) == d);
        }
    }
}

proof fn lemma_putting_back(d: Disk, parked: Seq<(Seq<char>, Seq<char>)>)
    requires
        forall|i: int, j: int| 0 <= i < j < parked.len() ==> parked[i].0 != parked[j].0 && parked[i].1 != parked[j].1,
        forall|i: int, j: int| 0 <= i < parked.len() && 0 <= j < parked.len() ==> parked[i].0 != parked[j].1,
        forall|i: int| 0 <= i < parked.len() ==> d.contains_key(#[trigger] parked[i].0),
    ensures
        forall|i: int|
            0 <= i < parked.len() ==> {
                &&& !run(d, putting_back(parked)).contains_key(#[trigger] parked[i].0)
                &&& run(d, putting_back(parked)).contains_key(parked[i].1)
                &&& run(d, putting_back(parked))[parked[i].1] == d[parked[i].0]
            },
        forall|x: Seq<char>|
            !is_park(parked, x) && !is_home(parked, x) ==> {
                &&& #[trigger] run(d, putting_back(parked)).contains_key(x) == d.contains_key(x)
                &&& d.contains_key(x) ==> run(d, putting_back(parked))[x] == d[x]
            },
    decreases parked.len(),
{
    if parked.len() > 0 {
        let p0 = parked[0].0;
        let h0 = parked[0].1;
        let rest = parked.drop_first();
        let d1 = d.insert(h0, d[p0]).remove(p0);
        let first = seq![Move::Copy(p0, h0), Move::Remove(p0)];
        assert(putting_back(parked) == first + putting_back(rest));
        lemma_run_append(d, first, putting_back(rest));
        assert(first =~= seq![Move::Copy(p0, h0)] + seq![Move::Remove(p0)]);
        lemma_run_append(d, seq![Move::Copy(p0, h0)], seq![Move::Remove(p0)]);
        lemma_run_one(d, Move::Copy(p0, h0));
        assert(d.contains_key(parked[0].0));
        lemma_run_one(d.insert(h0, d[p0]), Move::Remove(p0));
        assert(run(d, first) == d1);
        assert forall|i: int| 0 <= i < rest.len() implies d1.contains_key(#[trigger] rest[i].0) by {
            assert(rest[i] == parked[i + 1]);
            assert(d.contains_key(parked[i + 1].0));
        }
        assert forall|i: int, j: int| 0 <= i < j < rest.len() implies rest[i].0 != rest[j].0 && rest[i].1 != rest[j].1 by {
            assert(rest[i] == parked[i + 1] && rest[j] == parked[j + 1]);
        }
        assert forall|i: int, j: int| 0 <= i < rest.len() && 0 <= j < rest.len() implies rest[i].0 != rest[j].1 by {
            assert(rest[i] == parked[i + 1] && rest[j] == parked[j + 1]);
        }
        lemma_putting_back(d1, rest);
        let r = run(d, putting_back(parked));
        assert(r == run(d1, putting_back(rest)));
        assert(!is_park(rest, p0) && !is_home(rest, p0)) by {
            if is_park(rest, p0) {
                let k = choose|k: int| 0 <= k < rest.len() && rest[k].0 == p0;
                assert(parked[k + 1].0 == p0);
            }
            if is_home(rest, p0) {
                let k = choose|k: int| 0 <= k < rest.len() && rest[k].1 == p0;
                assert(parked[k + 1].1 == p0);
            }
        }
        assert(!is_park(rest, h0) && !is_home(rest, h0)) by {
            if is_park(rest, h0) {
                let k = choose|k: int| 0 <= k < rest.len() && rest[k].0 == h0;
                assert(parked[k + 1].0 == h0);
            }
            if is_home(rest, h0) {
                let k = choose|k: int| 0 <= k < rest.len() && rest[k].1 == h0;
                assert(parked[k + 1].1 == h0);
            }
        }
        assert(d1.contains_key(h0));
        assert(r.contains_key(h0) == d1.contains_key(h0));
        assert(r.contains_key(p0) == d1.contains_key(p0));
        assert forall|i: int|
            0 <= i < parked.len() implies {
                &&& !r.contains_key(#[trigger] parked[i].0)
                &&& r.contains_key(parked[i].1)
                &&& r[parked[i].1] == d[parked[i].0]
            } by {
            if i > 0 {
                assert(parked[i] == rest[i - 1]);
                assert(d1[rest[i - 1].0] == d[parked[i].0]);
            }
        }
        assert forall|x: Seq<char>|
            !is_park(parked, x) && !is_home(parked, x) implies {
                &&& #[trigger] r.contains_key(x) == d.contains_key(x)
                &&& d.contains_key(x) ==> r[x] == d[x]
            } by {
            assert(x != p0) by {
                assert(parked[0].0 == p0);
            }
            assert(x != h0) by {
                assert(parked[0].1 == h0);
            }
            if is_park(rest, x) {
                let k = choose|k: int| 0 <= k < rest.len() && rest[k].0 == x;
                assert(parked[k + 1].0 == x);
            }
            if is_home(rest, x) {
                let k = choose|k: int| 0 <= k < rest.len() && rest[k].1 == x;
                assert(parked[k + 1].1 == x);
            }
            assert(d1.contains_key(x) == d.contains_key(x));
        }
    }
}

/// Before anything is placed, the folder is as it was.
pub proof fn an_untouched_folder_is_recoverable(d0: Disk, level: Seq<char>)
    ensures
        recoverable(d0, d0, Seq::empty(), Seq::empty(), level),
{
}

/// Parking the game file at `dest` in a fresh place keeps the folder recoverable:
/// the parked copy stands for it until it goes back.
pub proof fn parking_keeps_the_folder_recoverable(
    d0: Disk,
    d: Disk,
    placed: Seq<Seq<char>>,
    parked: Seq<(Seq<char>, Seq<char>)>,
    level: Seq<char>,
    dest: Seq<char>,
    park: Seq<char>,
)
    requires
        recoverable(d0, d, placed, parked, level),
        d.contains_key(dest),
        dest != level,
        !placed.contains(dest),
        !is_park(parked, dest),
        !is_home(parked, dest),
        park != dest,
        park != level,
        !placed.contains(park),
        !is_park(parked, park),
        !is_home(parked, park),
        !d0.contains_key(park),
    ensures
        recoverable(d0, run(d, seq![Move::Copy(dest, park)]), placed, parked.push((park, dest)), level),
{
    lemma_run_one(d, Move::Copy(dest, park));
    let d2 = d.insert(park, d[dest]);
    let parked2 = parked.push((park, dest));
    assert(d.contains_key(dest) == d0.contains_key(dest));
    assert(d[dest] == d0[dest]);
    assert forall|i: int, j: int| 0 <= i < j < parked2.len() implies parked2[i].0 != parked2[j].0 && parked2[i].1 != parked2[j].1 by {
        if j == parked.len() {
            assert(parked2[i] == parked[i]);
        }
    }
    assert forall|i: int, j: int| 0 <= i < parked2.len() && 0 <= j < parked2.len() implies parked2[i].0 != parked2[j].1 by {
        if i < parked.len() && j == parked.len() {
            assert(parked2[i] == parked[i]);
        }
        if j < parked.len() && i == parked.len() {
            assert(parked2[j] == parked[j]);
        }
    }
    assert forall|i: int, j: int| 0 <= i < parked2.len() && 0 <= j < placed.len() implies parked2[i].0 != placed[j] by {
        if i < parked.len() {
            assert(parked2[i] == parked[i]);
        }
    }
    assert forall|i: int| 0 <= i < parked2.len() implies {
        &&& parked2[i].0 != level
        &&& parked2[i].1 != level
        &&& !d0.contains_key(parked2[i].0)
        &&& d0.contains_key(parked2[i].1)
        &&& d2.contains_key(parked2[i].0)
        &&& d2[parked2[i].0] == d0[parked2[i].1]
    } by {
        if i < parked.len() {
            assert(parked2[i] == parked[i]);
        }
    }
    assert forall|j: int| 0 <= j < placed.len() implies is_home(parked2, placed[j]) || !d0.contains_key(placed[j]) by {
        if is_home(parked, placed[j]) {
            let k = choose|k: int| 0 <= k < parked.len() && parked[k].1 == placed[j];
            assert(parked2[k].1 == placed[j]);
        }
    }
    assert forall|x: Seq<char>| x != level && !placed.contains(x) && !is_park(parked2, x) implies {
        &&& #[trigger] d2.contains_key(x) == d0.contains_key(x)
        &&& d0.contains_key(x) ==> d2[x] == d0[x]
    } by {
        assert(x != park) by {
            assert(parked2[parked.len() as int].0 == park);
        }
        if is_park(parked, x) {
            let k = choose|k: int| 0 <= k < parked.len() && parked[k].0 == x;
            assert(parked2[k].0 == x);
        }
        assert(d.contains_key(x) == d0.contains_key(x));
    }
}

/// Copying a package to `dest`, where nothing stood or where the game file was
/// parked, keeps the folder recoverable: taking the package out undoes it.
pub proof fn placing_keeps_the_folder_recoverable(
    d0: Disk,
    d: Disk,
    placed: Seq<Seq<char>>,
    parked: Seq<(Seq<char>, Seq<char>)>,
    level: Seq<char>,
    package: Seq<char>,
    dest: Seq<char>,
)
    requires
        recoverable(d0, d, placed, parked, level),
        dest != level,
        !placed.contains(dest),
        !is_park(parked, dest),
        is_home(parked, dest) || !d.contains_key(dest),
    ensures
        recoverable(d0, run(d, seq![Move::Copy(package, dest)]), placed.push(dest), parked, level),
{
    lemma_run_one(d, Move::Copy(package, dest));
    let d2 = apply(d, Move::Copy(package, dest));
    let placed2 = placed.push(dest);
    assert(placed2.no_duplicates()) by {
        assert forall|i: int, j: int| 0 <= i < j < placed2.len() implies placed2[i] != placed2[j] by {
            if j == placed.len() {
                assert(placed2[i] == placed[i]);
                assert(placed.contains(placed[i]));
            } else {
                assert(placed2[i] == placed[i] && placed2[j] == placed[j]);
            }
        }
    }
    assert(!placed2.contains(level)) by {
        if placed2.contains(level) {
            let k = choose|k: int| 0 <= k < placed2.len() && placed2[k] == level;
            if k < placed.len() {
                assert(placed[k] == level);
            }
        }
    }
    assert forall|i: int, j: int| 0 <= i < parked.len() && 0 <= j < placed2.len() implies parked[i].0 != placed2[j] by {
        if j < placed.len() {
            assert(placed2[j] == placed[j]);
        } else {
            assert(parked[i].0 != dest);
        }
    }
    if !is_home(parked, dest) {
        assert(d.contains_key(dest) == d0.contains_key(dest));
    }
    assert forall|j: int| 0 <= j < placed2.len() implies is_home(parked, placed2[j]) || !d0.contains_key(placed2[j]) by {
        if j < placed.len() {
            assert(placed2[j] == placed[j]);
        }
    }
    assert forall|x: Seq<char>| x != level && !placed2.contains(x) && !is_park(parked, x) implies {
        &&& #[trigger] d2.contains_key(x) == d0.contains_key(x)
        &&& d0.contains_key(x) ==> d2[x] == d0[x]
    } by {
        assert(x != dest) by {
            assert(placed2[placed.len() as int] == dest);
        }
        if placed.contains(x) {
            let k = choose|k: int| 0 <= k < placed.len() && placed[k] == x;
            assert(placed2[k] == x);
        }
        assert(d.contains_key(x) == d0.contains_key(x));
    }
    assert forall|i: int| 0 <= i < parked.len() implies {
        &&& parked[i].0 != level
        &&& parked[i].1 != level
        &&& !d0.contains_key(parked[i].0)
        &&& d0.contains_key(parked[i].1)
        &&& d2.contains_key(parked[i].0)
        &&& d2[parked[i].0] == d0[parked[i].1]
    } by {
        assert(parked[i].0 != dest);
    }
    assert forall|i: int, j: int| 0 <= i < j < parked.len() implies parked[i].0 != parked[j].0 && parked[i].1 != parked[j].1 by {}
    assert forall|i: int, j: int| 0 <= i < parked.len() && 0 <= j < parked.len() implies parked[i].0 != parked[j].1 by {}
    lemma_recoverable(d0, d2, placed2, parked, level);
}

/// Undoing a placement gives the folder back: taking its packages out and putting
/// the parked files back leaves every path as it was before the map came, but
/// the level, which holds what it holds.
pub proof fn undoing_gives_the_folder_back(
    d0: Disk,
    d: Disk,
    placed: Seq<Seq<char>>,
    parked: Seq<(Seq<char>, Seq<char>)>,
    level: Seq<char>,
)
    requires
        recoverable(d0, d, placed, parked, level),
    ensures
        run(d, undoing(placed, parked)) == if d.contains_key(level) {
            d0.insert(level, d[level])
        } else {
            d0.remove(level)
        },
{
    let d1 = run(d, removing(placed));
    lemma_run_append(d, removing(placed), putting_back(parked));
    lemma_removing(d, placed);
    assert forall|i: int| 0 <= i < parked.len() implies d1.contains_key(#[trigger] parked[i].0) && d1[parked[i].0]
        == d[parked[i].0] by {
        if placed.contains(parked[i].0) {
            let k = choose|k: int| 0 <= k < placed.len() && placed[k] == parked[i].0;
        }
        assert(d1.contains_key(parked[i].0));
    }
    lemma_putting_back(d1, parked);
    let r = run(d, undoing(placed, parked));
    assert(r == run(d1, putting_back(parked)));
    let want = if d.contains_key(level) {
        d0.insert(level, d[level])
    } else {
        d0.remove(level)
    };
    assert forall|x: Seq<char>| #[trigger] r.contains_key(x) == want.contains_key(x) && (r.contains_key(x) ==> r[x] == want[x]) by {
        if is_park(parked, x) {
            let i = choose|i: int| 0 <= i < parked.len() && parked[i].0 == x;
            assert(!r.contains_key(parked[i].0));
        } else if is_home(parked, x) {
            let i = choose|i: int| 0 <= i < parked.len() && parked[i].1 == x;
            assert(r.contains_key(parked[i].1) && r[parked[i].1] == d1[parked[i].0]);
            if placed.contains(x) {
            } else {
            }
        } else {
            assert(r.contains_key(x) == d1.contains_key(x));
            assert(d1.contains_key(x) == (d.contains_key(x) && !placed.contains(x)));
            if x == level {
            } else if placed.contains(x) {
                let j = choose|j: int| 0 <= j < placed.len() && placed[j] == x;
                assert(is_home(parked, placed[j]) || !d0.contains_key(placed[j]));
            } else {
                assert(d.contains_key(x) == d0.contains_key(x));
            }
        }
    }
    assert(r =~= want);
}

/// Install then restore gives back the exact original: undoing the map's
/// placement and copying the backup over the level leaves the folder as it was
/// before the map came, with the backup's bytes as the level; and exactly as it
/// was when the backup holds the level that stood there.
pub proof fn restoring_puts_the_original_back(
    d0: Disk,
    d: Disk,
    placed: Seq<Seq<char>>,
    parked: Seq<(Seq<char>, Seq<char>)>,
    level: Seq<char>,
    backup: Seq<char>,
)
    requires
        recoverable(d0, d, placed, parked, level),
        d0.contains_key(backup),
        backup != level,
        !placed.contains(backup),
        !is_park(parked, backup),
    ensures
        run(d, undoing(placed, parked) + seq![Move::Copy(backup, level)]) == d0.insert(level, d0[backup]),
        d0.contains_key(level) && d0[level] == d0[backup] ==> run(d, undoing(placed, parked) + seq![Move::Copy(backup, level)])
            == d0,
{
    undoing_gives_the_folder_back(d0, d, placed, parked, level);
    let u = run(d, undoing(placed, parked));
    lemma_run_append(d, undoing(placed, parked), seq![Move::Copy(backup, level)]);
    lemma_run_one(u, Move::Copy(backup, level));
    assert(u.contains_key(backup) && u[backup] == d0[backup]);
    let r = u.insert(level, d0[backup]);
    assert(r =~= d0.insert(level, d0[backup]));
    if d0.contains_key(level) && d0[level] == d0[backup] {
        assert(d0.insert(level, d0[backup]) =~= d0);
    }
}

/// Where `step` parks the game file at its destination, if it parks one.
pub open spec fn park_of(step: Step) -> Option<Seq<char>> {
    match step.park {
        Some(p) => Some(p@),
        None => None,
    }
}

/// The file operations that place `package` as `step` says: the game file at the
/// destination is parked first when the step parks one.
pub fn placing_ops(step: &Step, package: &str) -> (ops: Vec<FileOp>)
    ensures
        moves_of(ops@) == placing(package@, step.dest@, park_of(*step)),
{
    let mut ops: Vec<FileOp> = Vec::new();
    match &step.park {
        Some(p) => {
            ops.push(FileOp::Copy { from: dup_str(&step.dest), to: dup_str(p) });
        },
        None => {},
    }
    ops.push(FileOp::Copy { from: string_of(&chars_of(package)), to: dup_str(&step.dest) });
    proof {
        let want = placing(package@, step.dest@, park_of(*step));
        assert(moves_of(ops@) =~= want);
    }
    ops
}

/// The file operations that undo `placement` in the game folder `dir`: its
/// packages out, then each parked game file copied back and its parked copy let go.
pub fn undo_ops(placement: &Placement, dir: &str) -> (ops: Vec<FileOp>)
    ensures
        moves_of(ops@) == undoing(placed_in(dir@, placement.extras@), parked_in(dir@, placement.displaced@)),
{
    let ghost placed = placed_in(dir@, placement.extras@);
    let ghost parked = parked_in(dir@, placement.displaced@);
    let mut ops: Vec<FileOp> = Vec::new();
    let mut i: usize = 0;
    assert(moves_of(ops@) =~= removing(placed.take(0)));
    while i < placement.extras.len()
        invariant
            i <= placement.extras@.len(),
            placed == placed_in(dir@, placement.extras@),
            ops@.len() == i,
            moves_of(ops@) == removing(placed.take(i as int)),
        decreases placement.extras@.len() - i,
    {
        let ghost before = ops@;
        ops.push(FileOp::Remove { path: join_str(dir, placement.extras[i].as_str()) });
        proof {
            assert(placed[i as int] == join(dir@, placement.extras@[i as int]@));
            assert(placed.take(i + 1) =~= placed.take(i as int).push(placed[i as int]));
            assert(ops@ == before.push(ops@[i as int]));
            assert(moves_of(ops@) =~= moves_of(before).push(Move::Remove(placed[i as int])));
            assert(removing(placed.take(i + 1)) =~= removing(placed.take(i as int)).push(Move::Remove(placed[i as int])));
        }
        i += 1;
    }
    assert(placed.take(placement.extras@.len() as int) =~= placed);
    let mut k: usize = 0;
    assert(parked.skip(0) =~= parked);
    while k < placement.displaced.len()
        invariant
            k <= placement.displaced@.len(),
            parked == parked_in(dir@, placement.displaced@),
            moves_of(ops@) + putting_back(parked.skip(k as int)) == undoing(placed, parked),
        decreases placement.displaced@.len() - k,
    {
        let ghost before = moves_of(ops@);
        let back = dup_str(&placement.displaced[k].backup);
        let home = join_str(dir, placement.displaced[k].name.as_str());
        ops.push(FileOp::Copy { from: back, to: home });
        ops.push(FileOp::Discard { path: dup_str(&placement.displaced[k].backup) });
        proof {
            let rest = parked.skip(k as int);
            assert(rest[0] == parked[k as int]);
            assert(rest.drop_first() =~= parked.skip(k + 1));
            assert(moves_of(ops@) =~= before + seq![Move::Copy(parked[k as int].0, parked[k as int].1), Move::Remove(parked[k as int].0)]);
            assert(putting_back(rest) == seq![Move::Copy(rest[0].0, rest[0].1), Move::Remove(rest[0].0)] + putting_back(rest.drop_first()));
            assert(moves_of(ops@) + putting_back(parked.skip(k + 1)) =~= before + putting_back(rest));
        }
        k += 1;
    }
    assert(parked.skip(placement.displaced@.len() as int) =~= Seq::<(Seq<char>, Seq<char>)>::empty());
    assert(moves_of(ops@) + Seq::<Move>::empty() =~= moves_of(ops@));
    ops
}

/// The file operation that copies the level at `from` over the Underpass level in
/// the game folder `dir`: a map's level when it is loaded, the backed-up original
/// when it is restored.
pub fn level_op(from: &str, dir: &str) -> (op: FileOp)
    ensures
        op.as_move() == Move::Copy(from@, join(dir@, TARGET@)),
{
    FileOp::Copy { from: string_of(&chars_of(from)), to: join_str(dir, TARGET) }
}

} // verus!
