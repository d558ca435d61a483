//! The pictures on the cards: which are held, which are being fetched, which are
//! waiting, and which will never come.
use vstd::prelude::*;

use crate::text::{chars_of, string_of};
use crate::thumbs::{looks_decodable, looks_decodable_spec, Retry, MAX_IN_FLIGHT};

verus! {

/// How many pictures ahead of the row on screen are fetched.
pub const FETCH_AHEAD: usize = 36;

/// How many fetched pictures are kept around the row on screen.
pub const MAX_HANDLES: usize = 96;

/// How many times a picture whose fetch failed is tried.
pub const MAX_ATTEMPTS: u8 = 3;

/// How many pictures are held, waiting, being fetched and given up on.
#[derive(Debug, Clone, Copy, PartialEq, Eq, Structural)]
pub struct Tally {
    pub held: usize,
    pub queued: usize,
    pub running: usize,
    pub unavailable: usize,
}

/// The texts of `v`, in order.
pub open spec fn texts(v: Seq<String>) -> Seq<Seq<char>> {
    v.map_values(|s: String| s@)
}

/// The keys of `v`, in order.
pub open spec fn keys_of<V>(v: Seq<(String, V)>) -> Seq<Seq<char>> {
    v.map_values(|p: (String, V)| p.0@)
}

/// The value kept under `k` in `v`, if any.
pub open spec fn lookup<V>(v: Seq<(String, V)>, k: Seq<char>) -> Option<V>
    decreases v.len(),
{
    if v.len() == 0 {
        None
    } else if v.last().0@ == k {
        Some(v.last().1)
    } else {
        lookup(v.drop_last(), k)
    }
}

/// `s` without `k`, in order.
pub open spec fn without(s: Seq<Seq<char>>, k: Seq<char>) -> Seq<Seq<char>>
    decreases s.len(),
{
    if s.len() == 0 {
        s
    } else if s.last() == k {
        without(s.drop_last(), k)
    } else {
        without(s.drop_last(), k).push(s.last())
    }
}

proof fn lemma_lookup_found<V>(v: Seq<(String, V)>, k: Seq<char>)
    ensures
        lookup(v, k) is Some <==> keys_of(v).contains(k),
        lookup(v, k) matches Some(x) ==> exists|i: int| 0 <= i < v.len() && v[i].0@ == k && v[i].1 == x,
    decreases v.len(),
{
    if v.len() > 0 {
        lemma_lookup_found(v.drop_last(), k);
        assert(keys_of(v.drop_last()) =~= keys_of(v).drop_last());
        if keys_of(v).contains(k) && v.last().0@ != k {
            let i = choose|i: int| 0 <= i < keys_of(v).len() && keys_of(v)[i] == k;
            assert(keys_of(v.drop_last())[i] == k);
        }
        if lookup(v, k) is Some && v.last().0@ != k {
            let i = choose|i: int| 0 <= i < keys_of(v.drop_last()).len() && keys_of(v.drop_last())[i] == k;
            assert(keys_of(v)[i] == k);
        }
        if v.last().0@ == k {
            assert(keys_of(v)[v.len() - 1] == k);
        }
    }
}

proof fn lemma_lookup_unique<V>(v: Seq<(String, V)>, k: Seq<char>, i: int)
    requires
        keys_of(v).no_duplicates(),
        0 <= i < v.len(),
        v[i].0@ == k,
    ensures
        lookup(v, k) == Some(v[i].1),
    decreases v.len(),
{
    if i < v.len() - 1 {
        assert(keys_of(v)[i] == k && keys_of(v)[v.len() - 1] == v.last().0@);
        assert(keys_of(v.drop_last()) =~= keys_of(v).drop_last());
        lemma_lookup_unique(v.drop_last(), k, i);
    }
}

pub(crate) proof fn lemma_without_facts(s: Seq<Seq<char>>, k: Seq<char>)
    ensures
        !without(s, k).contains(k),
        forall|x: Seq<char>| x != k ==> (without(s, k).contains(x) <==> s.contains(x)),
        s.no_duplicates() ==> without(s, k).no_duplicates(),
        !s.contains(k) ==> without(s, k) == s,
    decreases s.len(),
{
    if s.len() > 0 {
        let r = without(s.drop_last(), k);
        lemma_without_facts(s.drop_last(), k);
        assert forall|x: Seq<char>| x != k implies (without(s, k).contains(x) <==> s.contains(x)) by {
            if s.contains(x) {
                let i = choose|i: int| 0 <= i < s.len() && s[i] == x;
                if i < s.len() - 1 {
                    assert(s.drop_last()[i] == x);
                    assert(s.drop_last().contains(x));
                    assert(r.contains(x));
                    let m = choose|m: int| 0 <= m < r.len() && r[m] == x;
                    assert(without(s, k)[m] == x);
                } else {
                    assert(without(s, k).last() == x);
                }
            }
            if without(s, k).contains(x) && s.last() != k {
                let i = choose|i: int| 0 <= i < without(s, k).len() && without(s, k)[i] == x;
                if i < r.len() {
                    assert(r[i] == x);
                    assert(r.contains(x));
                    assert(s.drop_last().contains(x));
                    let j = choose|j: int| 0 <= j < s.drop_last().len() && s.drop_last()[j] == x;
                    assert(s[j] == x);
                } else {
                    assert(s[s.len() - 1] == x);
                }
            }
            if without(s, k).contains(x) && s.last() == k {
                assert(s.drop_last().contains(x));
                let j = choose|j: int| 0 <= j < s.drop_last().len() && s.drop_last()[j] == x;
                assert(s[j] == x);
            }
        }
        if s.last() != k {
            assert(!without(s, k).contains(k)) by {
                if without(s, k).contains(k) {
                    let i = choose|i: int| 0 <= i < without(s, k).len() && without(s, k)[i] == k;
                    assert(i < r.len());
                    assert(r[i] == k);
                }
            }
        }
        if s.no_duplicates() {
            assert(s.drop_last().no_duplicates());
            if s.last() != k {
                assert(!r.contains(s.last())) by {
                    if r.contains(s.last()) {
                        assert(s.drop_last().contains(s.last()));
                        let j = choose|j: int| 0 <= j < s.drop_last().len() && s.drop_last()[j] == s.last();
                        assert(s[j] == s[s.len() - 1]);
                    }
                }
                assert forall|a: int, b: int| 0 <= a < without(s, k).len() && 0 <= b < without(s, k).len() && a != b implies without(s, k)[a] != without(s, k)[b] by {
                    if a == r.len() {
                        assert(r.contains(without(s, k)[b]) || b == r.len());
                    } else if b == r.len() {
                        assert(r.contains(without(s, k)[a]));
                    }
                }
            }
        }
        if !s.contains(k) {
            assert(!s.drop_last().contains(k)) by {
                if s.drop_last().contains(k) {
                    let j = choose|j: int| 0 <= j < s.drop_last().len() && s.drop_last()[j] == k;
                    assert(s[j] == k);
                }
            }
            assert(s.last() != k) by {
                assert(s[s.len() - 1] == s.last());
            }
            assert(s.drop_last().push(s.last()) =~= s);
        }
    }
}

/// Where `k` stands in `v`, if it does.
fn position(v: &Vec<String>, k: &str) -> (r: Option<usize>)
    ensures
        match r {
            Some(i) => i < v@.len() && v@[i as int]@ == k@,
            None => !texts(v@).contains(k@),
        },
{
    let key = string_of(&chars_of(k));
    let mut i: usize = 0;
    while i < v.len()
        invariant
            i <= v@.len(),
            key@ == k@,
            forall|j: int| 0 <= j < i ==> v@[j]@ != k@,
        decreases v.len() - i,
    {
        if v[i] == key {
            return Some(i);
        }
        i += 1;
    }
    proof {
        if texts(v@).contains(k@) {
            let j = choose|j: int| 0 <= j < texts(v@).len() && texts(v@)[j] == k@;
            assert(v@[j]@ == k@);
        }
    }
    None
}

/// Whether `k` is in `v`.
pub(crate) fn holds_text(v: &Vec<String>, k: &str) -> (b: bool)
    ensures
        b == texts(v@).contains(k@),
{
    match position(v, k) {
        Some(i) => {
            assert(texts(v@)[i as int] == k@);
            true
        },
        None => false,
    }
}

/// Adds `k` to the end of `v` unless it is there already.
pub(crate) fn add_text(v: &mut Vec<String>, k: &str)
    requires
        texts(old(v)@).no_duplicates(),
    ensures
        texts(final(v)@).no_duplicates(),
        texts(old(v)@).contains(k@) ==> texts(final(v)@) == texts(old(v)@),
        !texts(old(v)@).contains(k@) ==> texts(final(v)@) == texts(old(v)@).push(k@),
{
    if !holds_text(v, k) {
        let ghost before = texts(v@);
        v.push(string_of(&chars_of(k)));
        assert(texts(v@) =~= before.push(k@));
        assert forall|a: int, b: int| 0 <= a < texts(v@).len() && 0 <= b < texts(v@).len() && a != b implies texts(v@)[a] != texts(v@)[b] by {
            if a == before.len() {
                assert(before[b] != k@);
            } else if b == before.len() {
                assert(before[a] != k@);
            }
        }
    }
}

/// `v` without `k`, in order.
pub(crate) fn drop_text(v: &mut Vec<String>, k: &str)
    requires
        texts(old(v)@).no_duplicates(),
    ensures
        texts(final(v)@) == without(texts(old(v)@), k@),
        texts(final(v)@).no_duplicates(),
{
    let mut kept: Vec<String> = Vec::new();
    let key = string_of(&chars_of(k));
    let mut i: usize = 0;
    while i < v.len()
        invariant
            i <= v@.len(),
            key@ == k@,
            texts(kept@) == without(texts(v@).take(i as int), k@),
        decreases v.len() - i,
    {
        let ghost before = texts(v@).take(i as int);
        assert(texts(v@).take(i + 1).drop_last() =~= before);
        assert(texts(v@).take(i + 1).last() == v@[i as int]@);
        if v[i] != key {
            let ghost k0 = texts(kept@);
            kept.push(v[i].clone());
            assert(texts(kept@) =~= k0.push(v@[i as int]@));
        }
        i += 1;
    }
    assert(texts(v@).take(v.len() as int) =~= texts(v@));
    proof {
        lemma_without_facts(texts(v@), k@);
    }
    *v = kept;
}

/// Every text of `v` as a set.
pub open spec fn set_of(v: Seq<String>) -> Set<Seq<char>> {
    texts(v).to_set()
}

/// Whether a held picture `url` is kept when pictures far from the screen are
/// let go: a local picture, one an open popup shows, or one near the screen is.
pub open spec fn survives_spec(url: Seq<char>, pinned: Set<Seq<char>>, open: Set<Seq<char>>, window: Set<Seq<char>>) -> bool {
    pinned.contains(url) || open.contains(url) || window.contains(url)
}

/// Whether a held picture is kept when pictures far from the screen are let go.
pub fn survives(url: &str, pinned: &Vec<String>, open: &Vec<String>, window: &Vec<String>) -> (b: bool)
    ensures
        b == survives_spec(url@, set_of(pinned@), set_of(open@), set_of(window@)),
{
    holds_text(pinned, url) || holds_text(open, url) || holds_text(window, url)
}


/// Where `k` is kept in `v`, if it is.
fn key_position<V>(v: &Vec<(String, V)>, k: &str) -> (r: Option<usize>)
    ensures
        match r {
            Some(i) => i < v@.len() && v@[i as int].0@ == k@,
            None => !keys_of(v@).contains(k@),
        },
{
    let key = string_of(&chars_of(k));
    let mut i: usize = 0;
    while i < v.len()
        invariant
            i <= v@.len(),
            key@ == k@,
            forall|j: int| 0 <= j < i ==> v@[j].0@ != k@,
        decreases v.len() - i,
    {
        if v[i].0 == key {
            return Some(i);
        }
        i += 1;
    }
    proof {
        if keys_of(v@).contains(k@) {
            let j = choose|j: int| 0 <= j < keys_of(v@).len() && keys_of(v@)[j] == k@;
            assert(v@[j].0@ == k@);
        }
    }
    None
}

proof fn lemma_lookup_none<V>(v: Seq<(String, V)>, k: Seq<char>)
    requires
        !keys_of(v).contains(k),
    ensures
        lookup(v, k) is None,
{
    lemma_lookup_found(v, k);
}

/// `v` with `x` kept under `k`, in place of what was kept there.
fn put<V>(v: &mut Vec<(String, V)>, k: String, x: V)
    requires
        keys_of(old(v)@).no_duplicates(),
    ensures
        keys_of(final(v)@).no_duplicates(),
        keys_of(final(v)@).to_set() == keys_of(old(v)@).to_set().insert(k@),
        forall|q: Seq<char>| #[trigger] lookup(final(v)@, q) == if q == k@ { Some(x) } else { lookup(old(v)@, q) },
{
    let ghost old_v = v@;
    let ghost kk = k@;
    match key_position(v, k.as_str()) {
        Some(i) => {
            v.set(i, (k, x));
            proof {
                assert(keys_of(v@) =~= keys_of(old_v).update(i as int, kk));
                assert(keys_of(old_v)[i as int] == kk);
                assert(keys_of(v@) =~= keys_of(old_v));
                assert(keys_of(v@).to_set() =~= keys_of(old_v).to_set().insert(kk));
                assert forall|q: Seq<char>| #[trigger] lookup(v@, q) == if q == kk { Some(x) } else { lookup(old_v, q) } by {
                    if q == kk {
                        lemma_lookup_unique(v@, q, i as int);
                    } else if keys_of(old_v).contains(q) {
                        let j = choose|j: int| 0 <= j < keys_of(old_v).len() && keys_of(old_v)[j] == q;
                        assert(j != i);
                        lemma_lookup_unique(v@, q, j);
                        lemma_lookup_unique(old_v, q, j);
                    } else {
                        lemma_lookup_none(v@, q);
                        lemma_lookup_none(old_v, q);
                    }
                }
            }
        },
        None => {
            v.push((k, x));
            proof {
                assert(keys_of(v@) =~= keys_of(old_v).push(kk));
                assert forall|a: int, b: int| 0 <= a < keys_of(v@).len() && 0 <= b < keys_of(v@).len() && a != b implies keys_of(v@)[a] != keys_of(v@)[b] by {
                    if a == old_v.len() {
                        assert(keys_of(old_v)[b] != kk);
                    } else if b == old_v.len() {
                        assert(keys_of(old_v)[a] != kk);
                    }
                }
                assert(keys_of(v@).to_set() =~= keys_of(old_v).to_set().insert(kk)) by {
                    assert forall|q: Seq<char>| keys_of(v@).contains(q) <==> keys_of(old_v).contains(q) || q == kk by {
                        if keys_of(v@).contains(q) && q != kk {
                            let j = choose|j: int| 0 <= j < keys_of(v@).len() && keys_of(v@)[j] == q;
                            assert(keys_of(old_v)[j] == q);
                        }
                        if keys_of(old_v).contains(q) {
                            let j = choose|j: int| 0 <= j < keys_of(old_v).len() && keys_of(old_v)[j] == q;
                            assert(keys_of(v@)[j] == q);
                        }
                        if q == kk {
                            assert(keys_of(v@)[old_v.len() as int] == q);
                        }
                    }
                }
                assert forall|q: Seq<char>| #[trigger] lookup(v@, q) == if q == kk { Some(x) } else { lookup(old_v, q) } by {
                    assert(v@.drop_last() =~= old_v);
                }
            }
        },
    }
}

/// `v` with nothing kept under `k`.
fn forget<V>(v: &mut Vec<(String, V)>, k: &str)
    requires
        keys_of(old(v)@).no_duplicates(),
    ensures
        keys_of(final(v)@).no_duplicates(),
        keys_of(final(v)@).to_set() == keys_of(old(v)@).to_set().remove(k@),
        forall|q: Seq<char>| #[trigger] lookup(final(v)@, q) == if q == k@ { None } else { lookup(old(v)@, q) },
{
    let ghost old_v = v@;
    match key_position(v, k) {
        Some(i) => {
            let _gone = v.remove(i);
            proof {
                old_v.remove_ensures(i as int);
                assert(keys_of(v@) =~= keys_of(old_v).remove(i as int));
                assert forall|a: int, b: int| 0 <= a < keys_of(v@).len() && 0 <= b < keys_of(v@).len() && a != b implies keys_of(v@)[a] != keys_of(v@)[b] by {
                    let a2 = if a < i { a } else { a + 1 };
                    let b2 = if b < i { b } else { b + 1 };
                    assert(keys_of(v@)[a] == keys_of(old_v)[a2]);
                    assert(keys_of(v@)[b] == keys_of(old_v)[b2]);
                }
                assert forall|q: Seq<char>| keys_of(v@).contains(q) <==> keys_of(old_v).contains(q) && q != k@ by {
                    if keys_of(v@).contains(q) {
                        let j = choose|j: int| 0 <= j < keys_of(v@).len() && keys_of(v@)[j] == q;
                        let j2 = if j < i { j } else { j + 1 };
                        assert(keys_of(old_v)[j2] == q);
                        assert(j2 != i);
                        assert(keys_of(old_v)[i as int] == k@);
                        assert(q != k@);
                    }
                    if keys_of(old_v).contains(q) && q != k@ {
                        let j = choose|j: int| 0 <= j < keys_of(old_v).len() && keys_of(old_v)[j] == q;
                        assert(j != i);
                        if j < i {
                            assert(keys_of(v@)[j] == q);
                        } else {
                            assert(keys_of(v@)[j - 1] == q);
                        }
                    }
                }
                assert(keys_of(v@).to_set() =~= keys_of(old_v).to_set().remove(k@));
                assert forall|q: Seq<char>| #[trigger] lookup(v@, q) == if q == k@ { None } else { lookup(old_v, q) } by {
                    if keys_of(old_v).contains(q) && q != k@ {
                        let j = choose|j: int| 0 <= j < keys_of(old_v).len() && keys_of(old_v)[j] == q;
                        assert(j != i);
                        lemma_lookup_unique(old_v, q, j);
                        if j < i {
                            lemma_lookup_unique(v@, q, j);
                        } else {
                            assert(v@[j - 1] == old_v[j]);
                            lemma_lookup_unique(v@, q, j - 1);
                        }
                    } else {
                        assert(!keys_of(v@).contains(q));
                        lemma_lookup_none(v@, q);
                        if q != k@ {
                            lemma_lookup_none(old_v, q);
                        }
                    }
                }
            }
        },
        None => {
            proof {
                assert(keys_of(v@).to_set() =~= keys_of(old_v).to_set().remove(k@));
                assert forall|q: Seq<char>| #[trigger] lookup(v@, q) == if q == k@ { None } else { lookup(old_v, q) } by {
                    if q == k@ {
                        lemma_lookup_none(v@, q);
                    }
                }
            }
        },
    }
}


/// What the window holds of the card pictures, generic in how a held picture is
/// kept (`H`).
pub struct Gallery<H> {
    handles: Vec<(String, H)>,
    pinned: Vec<String>,
    queue: Vec<String>,
    running: Vec<String>,
    attempts: Vec<(String, u8)>,
    unavailable: Vec<String>,
}

impl<H> Default for Gallery<H> {
    fn default() -> (g: Gallery<H>)
        ensures
            g.wf(),
            g.held() == Set::<Seq<char>>::empty(),
            g.pinned_set() == Set::<Seq<char>>::empty(),
            g.waiting() == Seq::<Seq<char>>::empty(),
            g.fetching() == Set::<Seq<char>>::empty(),
            g.given_up() == Set::<Seq<char>>::empty(),
            forall|k: Seq<char>| g.tries(k) == 0,
    {
        Gallery::new()
    }
}

impl<H> Gallery<H> {
    /// Nothing occurs twice in any of the gallery's lists.
    pub closed spec fn wf(&self) -> bool {
        &&& keys_of(self.handles@).no_duplicates()
        &&& texts(self.pinned@).no_duplicates()
        &&& texts(self.queue@).no_duplicates()
        &&& texts(self.running@).no_duplicates()
        &&& keys_of(self.attempts@).no_duplicates()
        &&& texts(self.unavailable@).no_duplicates()
    }

    /// The pictures held.
    pub closed spec fn held(&self) -> Set<Seq<char>> {
        keys_of(self.handles@).to_set()
    }

    /// What is held for `k`.
    pub closed spec fn handle_of(&self, k: Seq<char>) -> Option<H> {
        lookup(self.handles@, k)
    }

    /// The local pictures, which are never let go.
    pub closed spec fn pinned_set(&self) -> Set<Seq<char>> {
        set_of(self.pinned@)
    }

    /// The pictures waiting to be fetched, first first.
    pub closed spec fn waiting(&self) -> Seq<Seq<char>> {
        texts(self.queue@)
    }

    /// The pictures being fetched.
    pub closed spec fn fetching(&self) -> Set<Seq<char>> {
        set_of(self.running@)
    }

    /// How many fetches of `k` have failed since it was last wanted afresh.
    pub closed spec fn tries(&self, k: Seq<char>) -> nat {
        match lookup(self.attempts@, k) {
            Some(n) => n as nat,
            None => 0,
        }
    }

    /// The pictures that will never come.
    pub closed spec fn given_up(&self) -> Set<Seq<char>> {
        set_of(self.unavailable@)
    }

    /// Whether `k` is held or given up on.
    pub open spec fn settled(&self, k: Seq<char>) -> bool {
        self.held().contains(k) || self.given_up().contains(k)
    }

    /// Whether `k` is worth fetching: not settled and not being fetched.
    pub open spec fn wanted(&self, k: Seq<char>) -> bool {
        !self.settled(k) && !self.fetching().contains(k)
    }

    /// An empty gallery.
    pub fn new() -> (g: Gallery<H>)
        ensures
            g.wf(),
            g.held() == Set::<Seq<char>>::empty(),
            g.pinned_set() == Set::<Seq<char>>::empty(),
            g.waiting() == Seq::<Seq<char>>::empty(),
            g.fetching() == Set::<Seq<char>>::empty(),
            g.given_up() == Set::<Seq<char>>::empty(),
            forall|k: Seq<char>| g.tries(k) == 0,
    {
        let g = Gallery {
            handles: Vec::new(),
            pinned: Vec::new(),
            queue: Vec::new(),
            running: Vec::new(),
            attempts: Vec::new(),
            unavailable: Vec::new(),
        };
        assert(g.held() =~= Set::<Seq<char>>::empty());
        assert(g.pinned_set() =~= Set::<Seq<char>>::empty());
        assert(g.waiting() =~= Seq::<Seq<char>>::empty());
        assert(g.fetching() =~= Set::<Seq<char>>::empty());
        assert(g.given_up() =~= Set::<Seq<char>>::empty());
        g
    }

    /// The picture held for `key`, if it is held.
    pub fn get(&self, key: &str) -> (r: Option<&H>)
        requires
            self.wf(),
        ensures
            r is Some <==> self.held().contains(key@),
            r matches Some(h) ==> self.handle_of(key@) == Some(*h),
    {
        match key_position(&self.handles, key) {
            Some(i) => {
                proof {
                    assert(keys_of(self.handles@)[i as int] == key@);
                    lemma_lookup_unique(self.handles@, key@, i as int);
                }
                Some(&self.handles[i].1)
            },
            None => None,
        }
    }

    /// Whether `key` is held.
    pub fn holds(&self, key: &str) -> (b: bool)
        ensures
            b == self.held().contains(key@),
    {
        match key_position(&self.handles, key) {
            Some(i) => {
                assert(keys_of(self.handles@)[i as int] == key@);
                true
            },
            None => false,
        }
    }

    /// Whether `key` will never come.
    pub fn is_unavailable(&self, key: &str) -> (b: bool)
        ensures
            b == self.given_up().contains(key@),
    {
        holds_text(&self.unavailable, key)
    }

    /// Whether `key` is worth fetching.
    fn is_wanted(&self, key: &str) -> (b: bool)
        ensures
            b == self.wanted(key@),
    {
        !self.holds(key) && !holds_text(&self.unavailable, key) && !holds_text(&self.running, key)
    }

    /// Puts `url` at the back of the queue, if it is wanted and not queued already.
    fn enqueue(&mut self, url: &str)
        requires
            old(self).wf(),
        ensures
            final(self).wf(),
            final(self).waiting() == if old(self).wanted(url@) && !old(self).waiting().contains(url@) {
                old(self).waiting().push(url@)
            } else {
                old(self).waiting()
            },
            final(self).handles == old(self).handles,
            final(self).pinned == old(self).pinned,
            final(self).running == old(self).running,
            final(self).attempts == old(self).attempts,
            final(self).unavailable == old(self).unavailable,
    {
        if self.is_wanted(url) {
            add_text(&mut self.queue, url);
        }
    }

    /// A picture arrived: it is held, and no longer fetched or counted as failing.
    pub fn arrived(&mut self, url: String, handle: H)
        requires
            old(self).wf(),
        ensures
            final(self).wf(),
            final(self).held() == old(self).held().insert(url@),
            forall|k: Seq<char>| #[trigger] final(self).handle_of(k) == if k == url@ { Some(handle) } else { old(self).handle_of(k) },
            final(self).fetching() == old(self).fetching().remove(url@),
            forall|k: Seq<char>| #[trigger] final(self).tries(k) == if k == url@ { 0 } else { old(self).tries(k) },
            final(self).waiting() == old(self).waiting(),
            final(self).pinned_set() == old(self).pinned_set(),
            final(self).given_up() == old(self).given_up(),
    {
        let ghost u = url@;
        drop_text(&mut self.running, url.as_str());
        forget(&mut self.attempts, url.as_str());
        put(&mut self.handles, url, handle);
        proof {
            lemma_without_facts(texts(old(self).running@), u);
            assert(self.fetching() =~= old(self).fetching().remove(u));
            assert forall|k: Seq<char>| #[trigger] self.tries(k) == if k == u { 0 } else { old(self).tries(k) } by {
                assert(lookup(self.attempts@, k) == if k == u { None } else { lookup(old(self).attempts@, k) });
            }
        }
    }

    /// What a failed fetch of `url` turns `self` into: `url` is no longer being
    /// fetched and what is held stays; a picture that will never come is given up
    /// on, and another has its failures counted (up to 255) and is queued again,
    /// when it is neither settled nor queued, while it has failed fewer than
    /// `MAX_ATTEMPTS` times.
    pub open spec fn failure_leaves(self, after: Self, url: Seq<char>, retry: Retry) -> bool {
        &&& after.fetching() == self.fetching().remove(url)
        &&& after.held() == self.held()
        &&& forall|k: Seq<char>| #[trigger] after.handle_of(k) == self.handle_of(k)
        &&& after.pinned_set() == self.pinned_set()
        &&& retry == Retry::Pointless ==> {
            &&& after.given_up() == self.given_up().insert(url)
            &&& after.waiting() == self.waiting()
            &&& forall|k: Seq<char>| #[trigger] after.tries(k) == self.tries(k)
        }
        &&& retry == Retry::Worth ==> {
            let n = if self.tries(url) < 255 { self.tries(url) + 1 } else { 255 };
            &&& after.given_up() == self.given_up()
            &&& forall|k: Seq<char>| #[trigger] after.tries(k) == if k == url { n } else { self.tries(k) }
            &&& after.waiting() == if n < MAX_ATTEMPTS && !self.settled(url) && !self.waiting().contains(url) {
                self.waiting().push(url)
            } else {
                self.waiting()
            }
        }
    }

    /// A fetch failed: a picture that will never come is given up on; another is
    /// queued again while it has failed fewer than `MAX_ATTEMPTS` times.
    pub fn failed(&mut self, url: String, retry: Retry)
        requires
            old(self).wf(),
        ensures
            final(self).wf(),
            old(self).failure_leaves(*final(self), url@, retry),
    {
        let ghost u = url@;
        drop_text(&mut self.running, url.as_str());
        proof {
            lemma_without_facts(texts(old(self).running@), u);
            assert(self.fetching() =~= old(self).fetching().remove(u));
        }
        if retry == Retry::Pointless {
            add_text(&mut self.unavailable, url.as_str());
            proof {
                assert(self.given_up() =~= old(self).given_up().insert(u)) by {
                    if texts(old(self).unavailable@).contains(u) {
                    } else {
                        assert forall|q: Seq<char>| texts(self.unavailable@).contains(q) <==> texts(old(self).unavailable@).contains(q) || q == u by {
                            if texts(self.unavailable@).contains(q) && q != u {
                                let j = choose|j: int| 0 <= j < texts(self.unavailable@).len() && texts(self.unavailable@)[j] == q;
                                assert(texts(old(self).unavailable@)[j] == q);
                            }
                            if texts(old(self).unavailable@).contains(q) {
                                let j = choose|j: int| 0 <= j < texts(old(self).unavailable@).len() && texts(old(self).unavailable@)[j] == q;
                                assert(texts(self.unavailable@)[j] == q);
                            }
                            if q == u {
                                assert(texts(self.unavailable@)[texts(old(self).unavailable@).len() as int] == q);
                            }
                        }
                    }
                }
            }
            return;
        }
        let count: u8 = match key_position(&self.attempts, url.as_str()) {
            Some(i) => {
                proof {
                    assert(keys_of(self.attempts@)[i as int] == u);
                    lemma_lookup_unique(self.attempts@, u, i as int);
                }
                self.attempts[i].1
            },
            None => {
                proof {
                    lemma_lookup_none(self.attempts@, u);
                }
                0
            },
        };
        let next = count.saturating_add(1);
        put(&mut self.attempts, url.clone(), next);
        if next < MAX_ATTEMPTS {
            self.enqueue(url.as_str());
        }
    }

    /// Starts fetching `url` at once, ahead of the queue, when it is wanted.
    pub fn prioritise(&mut self, url: &str) -> (r: Option<String>)
        requires
            old(self).wf(),
        ensures
            final(self).wf(),
            r is Some <==> old(self).wanted(url@),
            r matches Some(u) ==> u@ == url@,
            old(self).wanted(url@) ==> {
                &&& final(self).waiting() == without(old(self).waiting(), url@)
                &&& final(self).fetching() == old(self).fetching().insert(url@)
            },
            !old(self).wanted(url@) ==> {
                &&& final(self).waiting() == old(self).waiting()
                &&& final(self).fetching() == old(self).fetching()
            },
            final(self).held() == old(self).held(),
            forall|k: Seq<char>| #[trigger] final(self).handle_of(k) == old(self).handle_of(k),
            final(self).given_up() == old(self).given_up(),
            final(self).pinned_set() == old(self).pinned_set(),
            forall|k: Seq<char>| #[trigger] final(self).tries(k) == old(self).tries(k),
    {
        if !self.is_wanted(url) {
            return None;
        }
        drop_text(&mut self.queue, url);
        add_text(&mut self.running, url);
        proof {
            assert(self.fetching() =~= old(self).fetching().insert(url@)) by {
                assert forall|q: Seq<char>| texts(self.running@).contains(q) <==> texts(old(self).running@).contains(q) || q == url@ by {
                    let o = texts(old(self).running@);
                    let n = texts(self.running@);
                    assert(n == o.push(url@));
                    if n.contains(q) && q != url@ {
                        let j = choose|j: int| 0 <= j < n.len() && n[j] == q;
                        assert(o[j] == q);
                    }
                    if o.contains(q) {
                        let j = choose|j: int| 0 <= j < o.len() && o[j] == q;
                        assert(n[j] == q);
                    }
                    if q == url@ {
                        assert(n[o.len() as int] == q);
                    }
                }
            }
        }
        Some(string_of(&chars_of(url)))
    }

    /// Whether nothing waits and nothing is being fetched.
    pub fn idle(&self) -> (b: bool)
        ensures
            b == (self.waiting().len() == 0 && self.fetching().is_empty()),
    {
        proof {
            if texts(self.running@).len() > 0 {
                assert(self.fetching().contains(texts(self.running@)[0]));
            } else {
                assert(self.fetching() =~= Set::<Seq<char>>::empty());
            }
        }
        self.queue.len() == 0 && self.running.len() == 0
    }

    /// How many pictures are held, waiting, being fetched and given up on.
    pub fn tally(&self) -> (t: Tally)
        requires
            self.wf(),
        ensures
            t.held == self.held().len(),
            t.queued == self.waiting().len(),
            t.running == self.fetching().len(),
            t.unavailable == self.given_up().len(),
    {
        proof {
            keys_of(self.handles@).unique_seq_to_set();
            texts(self.running@).unique_seq_to_set();
            texts(self.unavailable@).unique_seq_to_set();
        }
        Tally {
            held: self.handles.len(),
            queued: self.queue.len(),
            running: self.running.len(),
            unavailable: self.unavailable.len(),
        }
    }

    /// Starts fetching from the front of the queue, skipping what is no longer
    /// wanted, until `MAX_IN_FLIGHT` fetches run or the queue is empty; returns
    /// the pictures started.
    pub fn next_batch(&mut self) -> (started: Vec<String>)
        requires
            old(self).wf(),
        ensures
            final(self).wf(),
            ({
                let b = batch_spec(old(self).waiting(), |k: Seq<char>| old(self).wanted(k), MAX_IN_FLIGHT - old(self).fetching().len());
                &&& texts(started@) == b.1
                &&& final(self).waiting() == old(self).waiting().skip(b.0)
                &&& final(self).fetching() == old(self).fetching() + b.1.to_set()
            }),
            forall|i: int| 0 <= i < started@.len() ==> old(self).wanted(#[trigger] started@[i]@),
            old(self).fetching().len() <= MAX_IN_FLIGHT ==> final(self).fetching().len() <= MAX_IN_FLIGHT,
            final(self).held() == old(self).held(),
            forall|k: Seq<char>| #[trigger] final(self).handle_of(k) == old(self).handle_of(k),
            final(self).given_up() == old(self).given_up(),
            final(self).pinned_set() == old(self).pinned_set(),
            forall|k: Seq<char>| #[trigger] final(self).tries(k) == old(self).tries(k),
    {
        let ghost w = |k: Seq<char>| old(self).wanted(k);
        let ghost q0 = texts(self.queue@);
        let ghost r0 = texts(self.running@);
        proof {
            r0.unique_seq_to_set();
        }
        let ghost room0: int = MAX_IN_FLIGHT - r0.len();
        let mut started: Vec<String> = Vec::new();
        let ghost mut popped: int = 0;
        assert(q0.skip(0) =~= q0);
        assert(r0 + texts(started@) =~= r0);
        while self.running.len() < MAX_IN_FLIGHT && self.queue.len() > 0
            invariant
                self.wf(),
                q0 == texts(old(self).queue@),
                r0 == texts(old(self).running@),
                q0.no_duplicates(),
                room0 == MAX_IN_FLIGHT - r0.len(),
                0 <= popped <= q0.len(),
                texts(self.queue@) == q0.skip(popped),
                texts(self.running@) == r0 + texts(started@),
                r0.len() <= MAX_IN_FLIGHT ==> texts(self.running@).len() <= MAX_IN_FLIGHT,
                forall|x: Seq<char>| texts(started@).contains(x) ==> q0.take(popped).contains(x),
                forall|i: int| 0 <= i < started@.len() ==> w(#[trigger] started@[i]@),
                batch_spec(q0, w, room0) == ({
                    let bs = batch_spec(q0.skip(popped), w, room0 - started@.len());
                    (popped + bs.0, texts(started@) + bs.1)
                }),
                self.handles == old(self).handles,
                self.pinned == old(self).pinned,
                self.attempts == old(self).attempts,
                self.unavailable == old(self).unavailable,
                w == (|k: Seq<char>| old(self).wanted(k)),
            decreases q0.len() - popped,
        {
            let ghost rest = q0.skip(popped);
            let ghost st = texts(started@);
            assert(texts(self.queue@)[0] == q0[popped]);
            let ghost old_q = self.queue@;
            let ghost idx = popped;
            let url = self.queue.remove(0);
            proof {
                old_q.remove_ensures(0);
                assert(url@ == q0[idx]);
                assert forall|j: int| 0 <= j < texts(self.queue@).len() implies texts(self.queue@)[j] == texts(old_q)[j + 1] by {
                    assert(self.queue@[j] == old_q[j + 1]);
                }
                assert(texts(self.queue@) =~= q0.skip(popped + 1));
                assert(rest.drop_first() =~= q0.skip(popped + 1));
                assert(!st.contains(url@)) by {
                    if st.contains(url@) {
                        assert(q0.take(popped).contains(url@));
                        let j = choose|j: int| 0 <= j < q0.take(popped).len() && q0.take(popped)[j] == url@;
                        assert(q0[j] == q0[popped]);
                    }
                }
                assert(set_of(self.running@).contains(url@) <==> r0.contains(url@)) by {
                    if texts(self.running@).contains(url@) {
                        let j = choose|j: int| 0 <= j < texts(self.running@).len() && texts(self.running@)[j] == url@;
                        if j >= r0.len() {
                            assert(st[j - r0.len()] == url@);
                        }
                    }
                    if r0.contains(url@) {
                        let j = choose|j: int| 0 <= j < r0.len() && r0[j] == url@;
                        assert(texts(self.running@)[j] == url@);
                    }
                }
                assert forall|x: Seq<char>| q0.take(popped).contains(x) implies q0.take(popped + 1).contains(x) by {
                    let j = choose|j: int| 0 <= j < q0.take(popped).len() && q0.take(popped)[j] == x;
                    assert(q0.take(popped + 1)[j] == x);
                }
                popped = popped + 1;
            }
            if self.is_wanted(url.as_str()) {
                let ghost before = texts(self.running@);
                self.running.push(url.clone());
                started.push(url);
                proof {
                    let u = started@[started@.len() - 1]@;
                    assert(texts(self.running@) =~= before.push(u));
                    assert(texts(started@) =~= st.push(u));
                    assert(texts(self.running@) =~= r0 + texts(started@));
                    assert forall|a: int, b: int| 0 <= a < texts(self.running@).len() && 0 <= b < texts(self.running@).len() && a != b implies texts(self.running@)[a] != texts(self.running@)[b] by {
                        if a == before.len() {
                            assert(before[b] != u);
                        } else if b == before.len() {
                            assert(before[a] != u);
                        }
                    }
                    assert forall|x: Seq<char>| texts(started@).contains(x) implies q0.take(popped).contains(x) by {
                        let j = choose|j: int| 0 <= j < texts(started@).len() && texts(started@)[j] == x;
                        if j < st.len() {
                            assert(st[j] == x);
                            assert(st.contains(x));
                            assert(q0.take(idx).contains(x));
                            let m = choose|m: int| 0 <= m < q0.take(idx).len() && q0.take(idx)[m] == x;
                            assert(q0.take(popped)[m] == x);
                        } else {
                            assert(x == q0[idx]);
                            assert(q0.take(popped)[idx] == x);
                        }
                    }
                    assert(seq![u] + batch_spec(rest.drop_first(), w, room0 - started@.len()).1 =~= seq![u] + batch_spec(q0.skip(popped), w, room0 - started@.len()).1);
                    assert(st + (seq![u] + batch_spec(q0.skip(popped), w, room0 - started@.len()).1) =~= texts(started@) + batch_spec(q0.skip(popped), w, room0 - started@.len()).1);
                }
            } else {
                proof {
                    assert(!w(url@));
                }
            }
        }
        proof {
            let bs = batch_spec(q0.skip(popped), w, room0 - started@.len());
            assert(bs.0 == 0 && bs.1.len() == 0);
            assert(texts(started@) + bs.1 =~= texts(started@));
            texts(self.running@).unique_seq_to_set();
            assert(set_of(self.running@) =~= set_of(old(self).running@) + texts(started@).to_set()) by {
                assert forall|x: Seq<char>| texts(self.running@).contains(x) <==> r0.contains(x) || texts(started@).contains(x) by {
                    let st = texts(started@);
                    if texts(self.running@).contains(x) {
                        let j = choose|j: int| 0 <= j < texts(self.running@).len() && texts(self.running@)[j] == x;
                        if j >= r0.len() {
                            assert(st[j - r0.len()] == x);
                        }
                    }
                    if r0.contains(x) {
                        let j = choose|j: int| 0 <= j < r0.len() && r0[j] == x;
                        assert(texts(self.running@)[j] == x);
                    }
                    if st.contains(x) {
                        let j = choose|j: int| 0 <= j < st.len() && st[j] == x;
                        assert(texts(self.running@)[r0.len() + j] == x);
                    }
                }
            }
        }
        started
    }

    /// Whether a picture around the row on screen is neither held nor given up on.
    pub fn any_missing(&self, keys: &[String], focus: usize) -> (b: bool)
        requires
            keys@.len() == 0 || focus < keys@.len(),
        ensures
            b == exists|j: int| 0 <= j < picks(keys@, focus_seq(keys@.len() as int, focus as int, FETCH_AHEAD as int)).len()
                && !self.settled(#[trigger] picks(keys@, focus_seq(keys@.len() as int, focus as int, FETCH_AHEAD as int))[j]),
    {
        let order = focus_order(keys.len(), focus, FETCH_AHEAD);
        let ghost urls = picks(keys@, focus_seq(keys@.len() as int, focus as int, FETCH_AHEAD as int));
        let mut j: usize = 0;
        while j < order.len()
            invariant
                j <= order@.len(),
                order@.len() == urls.len(),
                urls == picks(keys@, focus_seq(keys@.len() as int, focus as int, FETCH_AHEAD as int)),
                forall|k: int| 0 <= k < order@.len() ==> order@[k] == focus_seq(keys@.len() as int, focus as int, FETCH_AHEAD as int)[k],
                forall|k: int| 0 <= k < order@.len() ==> #[trigger] order@[k] < keys@.len(),
                forall|k: int| 0 <= k < j ==> self.settled(#[trigger] urls[k]),
            decreases order@.len() - j,
        {
            let key = keys[order[j]].as_str();
            assert(urls[j as int] == key@);
            if !self.holds(key) && !holds_text(&self.unavailable, key) {
                return true;
            }
            j += 1;
        }
        false
    }

    /// Points the gallery at the row on screen: the queue is rebuilt from the
    /// cards around it, each of them counted afresh, and when more pictures are
    /// held than `MAX_HANDLES` beyond the local ones, those far from the screen
    /// are let go unless an open popup shows them.
    pub fn focus(&mut self, remote: &[String], focus: usize, open: &Vec<String>)
        requires
            old(self).wf(),
            remote@.len() == 0 || focus < remote@.len(),
        ensures
            final(self).wf(),
            ({
                let urls = picks(remote@, focus_seq(remote@.len() as int, focus as int, FETCH_AHEAD as int));
                &&& final(self).waiting() == enqueue_all(urls, |k: Seq<char>| old(self).wanted(k))
                &&& forall|k: Seq<char>| #[trigger] final(self).tries(k) == if urls.contains(k) { 0 } else { old(self).tries(k) }
            }),
            final(self).fetching() == old(self).fetching(),
            final(self).given_up() == old(self).given_up(),
            final(self).pinned_set() == old(self).pinned_set(),
            if remote@.len() > 0 && old(self).held().len() > MAX_HANDLES + old(self).pinned_set().len() {
                let window = picks(remote@, focus_seq(remote@.len() as int, focus as int, MAX_HANDLES as int)).to_set();
                final(self).held() == old(self).held().filter(
                    |k: Seq<char>| survives_spec(k, old(self).pinned_set(), set_of(open@), window),
                )
            } else {
                final(self).held() == old(self).held()
            },
            forall|k: Seq<char>| final(self).held().contains(k) ==> #[trigger] final(self).handle_of(k) == old(self).handle_of(k),
    {
        let ghost w = |k: Seq<char>| old(self).wanted(k);
        let ghost urls = picks(remote@, focus_seq(remote@.len() as int, focus as int, FETCH_AHEAD as int));
        self.queue.clear();
        let order = focus_order(remote.len(), focus, FETCH_AHEAD);
        let mut j: usize = 0;
        assert(urls.take(0) =~= Seq::<Seq<char>>::empty());
        while j < order.len()
            invariant
                self.wf(),
                j <= order@.len(),
                order@.len() == urls.len(),
                urls == picks(remote@, focus_seq(remote@.len() as int, focus as int, FETCH_AHEAD as int)),
                forall|k: int| 0 <= k < order@.len() ==> order@[k] == focus_seq(remote@.len() as int, focus as int, FETCH_AHEAD as int)[k],
                forall|k: int| 0 <= k < order@.len() ==> #[trigger] order@[k] < remote@.len(),
                texts(self.queue@) == enqueue_all(urls.take(j as int), w),
                forall|k: Seq<char>| #[trigger] lookup(self.attempts@, k) == if urls.take(j as int).contains(k) { None } else { lookup(old(self).attempts@, k) },
                self.handles == old(self).handles,
                self.pinned == old(self).pinned,
                self.running == old(self).running,
                self.unavailable == old(self).unavailable,
                w == (|k: Seq<char>| old(self).wanted(k)),
            decreases order@.len() - j,
        {
            let url = remote[order[j]].as_str();
            let ghost before = urls.take(j as int);
            let ghost att = self.attempts@;
            proof {
                assert(urls[j as int] == url@);
                assert(urls.take(j + 1).drop_last() =~= before);
                assert(urls.take(j + 1).last() == url@);
            }
            forget(&mut self.attempts, url);
            self.enqueue(url);
            proof {
                assert forall|k: Seq<char>| #[trigger] lookup(self.attempts@, k) == if urls.take(j + 1).contains(k) { None } else { lookup(old(self).attempts@, k) } by {
                    if k != url@ {
                        assert(urls.take(j + 1).contains(k) <==> before.contains(k)) by {
                            if urls.take(j + 1).contains(k) {
                                let t = urls.take(j + 1);
                                let m = choose|m: int| 0 <= m < t.len() && t[m] == k;
                                assert(before[m] == k);
                            }
                            if before.contains(k) {
                                let m = choose|m: int| 0 <= m < before.len() && before[m] == k;
                                let t = urls.take(j + 1);
                                assert(t[m] == k);
                            }
                        }
                    } else {
                        assert(urls.take(j + 1)[j as int] == k);
                    }
                }
            }
            j += 1;
        }
        proof {
            assert(urls.take(order@.len() as int) =~= urls);
            assert forall|k: Seq<char>| #[trigger] self.tries(k) == if urls.contains(k) { 0 } else { old(self).tries(k) } by {
                assert(lookup(self.attempts@, k) == if urls.contains(k) { None } else { lookup(old(self).attempts@, k) });
            }
            keys_of(self.handles@).unique_seq_to_set();
            texts(self.pinned@).unique_seq_to_set();
        }
        let ghost q1 = self.queue@;
        let ghost a1 = self.attempts@;
        if remote.len() == 0 || self.handles.len() <= self.pinned.len() || self.handles.len() - self.pinned.len() <= MAX_HANDLES {
            return;
        }
        let spots = focus_order(remote.len(), focus, MAX_HANDLES);
        let ghost wurls = picks(remote@, focus_seq(remote@.len() as int, focus as int, MAX_HANDLES as int));
        let mut window: Vec<String> = Vec::new();
        let mut i: usize = 0;
        while i < spots.len()
            invariant
                i <= spots@.len(),
                spots@.len() == wurls.len(),
                wurls == picks(remote@, focus_seq(remote@.len() as int, focus as int, MAX_HANDLES as int)),
                forall|k: int| 0 <= k < spots@.len() ==> spots@[k] == focus_seq(remote@.len() as int, focus as int, MAX_HANDLES as int)[k],
                forall|k: int| 0 <= k < spots@.len() ==> #[trigger] spots@[k] < remote@.len(),
                texts(window@) == wurls.take(i as int),
                self.wf(),
                self.queue@ == q1,
                self.attempts@ == a1,
                self.handles == old(self).handles,
                self.pinned == old(self).pinned,
                self.running == old(self).running,
                self.unavailable == old(self).unavailable,
            decreases spots@.len() - i,
        {
            let ghost before = texts(window@);
            assert(wurls[i as int] == remote@[spots@[i as int] as int]@);
            let c = remote[spots[i]].clone();
            assert(c@ == wurls[i as int]);
            window.push(c);
            assert(texts(window@) =~= before.push(c@));
            assert(texts(window@) =~= wurls.take(i + 1));
            i += 1;
        }
        assert(wurls.take(spots@.len() as int) =~= wurls);
        let ghost surv = |k: Seq<char>| survives_spec(k, old(self).pinned_set(), set_of(open@), wurls.to_set());
        let ghost h0 = self.handles@;
        let mut kept: Vec<(String, H)> = Vec::new();
        while self.handles.len() > 0
            invariant
                keys_of(h0).no_duplicates(),
                h0 == old(self).handles@,
                self.handles@ == h0.take(self.handles@.len() as int),
                self.handles@.len() <= h0.len(),
                texts(window@) == wurls,
                self.pinned == old(self).pinned,
                keys_of(kept@).no_duplicates(),
                forall|k: Seq<char>| keys_of(kept@).contains(k) <==> keys_of(h0.skip(self.handles@.len() as int)).contains(k) && surv(k),
                forall|k: Seq<char>| keys_of(kept@).contains(k) ==> #[trigger] lookup(kept@, k) == lookup(h0, k),
                surv == (|k: Seq<char>| survives_spec(k, old(self).pinned_set(), set_of(open@), wurls.to_set())),
                self.queue@ == q1,
                self.attempts@ == a1,
                self.running == old(self).running,
                self.unavailable == old(self).unavailable,
                texts(q1).no_duplicates(),
                keys_of(a1).no_duplicates(),
                texts(self.pinned@).no_duplicates(),
                texts(self.running@).no_duplicates(),
                texts(self.unavailable@).no_duplicates(),
            decreases self.handles@.len(),
        {
            let ghost n = self.handles@.len() as int;
            let ghost kept0 = kept@;
            let entry = self.handles.pop().unwrap();
            let ghost e = h0[n - 1];
            proof {
                assert(entry == e);
                assert(self.handles@ =~= h0.take(n - 1));
                assert(keys_of(h0)[n - 1] == e.0@);
                assert forall|k: Seq<char>| keys_of(h0.skip(n - 1)).contains(k) <==> keys_of(h0.skip(n)).contains(k) || k == e.0@ by {
                    if keys_of(h0.skip(n - 1)).contains(k) {
                        let t = keys_of(h0.skip(n - 1));
                        let m = choose|m: int| 0 <= m < t.len() && t[m] == k;
                        if m > 0 {
                            assert(keys_of(h0.skip(n))[m - 1] == k);
                        }
                    }
                    if keys_of(h0.skip(n)).contains(k) {
                        let t = keys_of(h0.skip(n));
                        let m = choose|m: int| 0 <= m < t.len() && t[m] == k;
                        assert(keys_of(h0.skip(n - 1))[m + 1] == k);
                    }
                    if k == e.0@ {
                        assert(keys_of(h0.skip(n - 1))[0] == k);
                    }
                }
                assert(!keys_of(h0.skip(n)).contains(e.0@)) by {
                    if keys_of(h0.skip(n)).contains(e.0@) {
                        let t = keys_of(h0.skip(n));
                        let m = choose|m: int| 0 <= m < t.len() && t[m] == e.0@;
                        assert(keys_of(h0)[n + m] == e.0@);
                    }
                }
                lemma_lookup_unique(h0, e.0@, n - 1);
            }
            let keep = survives(entry.0.as_str(), &self.pinned, open, &window);
            proof {
                assert(set_of(window@) == wurls.to_set());
                assert(keep == surv(e.0@));
            }
            if keep {
                kept.push(entry);
                proof {
                    assert(keys_of(kept@) =~= keys_of(kept0).push(e.0@));
                    assert(kept@.drop_last() =~= kept0);
                    assert forall|a: int, b: int| 0 <= a < keys_of(kept@).len() && 0 <= b < keys_of(kept@).len() && a != b implies keys_of(kept@)[a] != keys_of(kept@)[b] by {
                        if a == kept0.len() {
                            assert(keys_of(kept0).contains(keys_of(kept@)[b]));
                        } else if b == kept0.len() {
                            assert(keys_of(kept0).contains(keys_of(kept@)[a]));
                        }
                    }
                    assert forall|k: Seq<char>| keys_of(kept@).contains(k) <==> keys_of(kept0).contains(k) || k == e.0@ by {
                        if keys_of(kept@).contains(k) && k != e.0@ {
                            let m = choose|m: int| 0 <= m < keys_of(kept@).len() && keys_of(kept@)[m] == k;
                            assert(keys_of(kept0)[m] == k);
                        }
                        if keys_of(kept0).contains(k) {
                            let m = choose|m: int| 0 <= m < keys_of(kept0).len() && keys_of(kept0)[m] == k;
                            assert(keys_of(kept@)[m] == k);
                        }
                        if k == e.0@ {
                            assert(keys_of(kept@)[kept0.len() as int] == k);
                        }
                    }
                    assert forall|k: Seq<char>| keys_of(kept@).contains(k) implies #[trigger] lookup(kept@, k) == lookup(h0, k) by {
                        if k != e.0@ {
                            assert(keys_of(kept0).contains(k));
                            assert(lookup(kept@, k) == lookup(kept0, k));
                            assert(lookup(kept0, k) == lookup(h0, k));
                        } else {
                            assert(kept@.last() == e);
                            assert(lookup(kept@, k) == Some(e.1));
                            assert(lookup(h0, k) == Some(h0[n - 1].1));
                        }
                    }
                }
            }
            proof {
                assert(self.handles@.len() == n - 1);
                assert forall|k: Seq<char>| keys_of(kept@).contains(k) <==> keys_of(h0.skip(n - 1)).contains(k) && surv(k) by {
                    assert(keys_of(h0.skip(n - 1)).contains(k) <==> keys_of(h0.skip(n)).contains(k) || k == e.0@);
                    assert(keys_of(kept0).contains(k) <==> keys_of(h0.skip(n)).contains(k) && surv(k));
                    if k != e.0@ {
                        assert(keys_of(kept@).contains(k) <==> keys_of(kept0).contains(k));
                    } else {
                        assert(!keys_of(kept0).contains(k));
                        if keep {
                            assert(keys_of(kept@).contains(k));
                        } else {
                            assert(kept@ == kept0);
                        }
                    }
                }
            }
        }
        proof {
            assert(h0.skip(0) =~= h0);
            assert(keys_of(kept@).to_set() =~= keys_of(h0).to_set().filter(surv));
        }
        self.handles = kept;
    }

    /// Records what reading a local picture gave: the picture, which is then held
    /// for good, or nothing, and the picture is given up on.
    pub fn settle_local(&mut self, key: String, handle: Option<H>)
        requires
            old(self).wf(),
        ensures
            final(self).wf(),
            final(self).waiting() == old(self).waiting(),
            final(self).fetching() == old(self).fetching(),
            forall|k: Seq<char>| #[trigger] final(self).tries(k) == old(self).tries(k),
            match handle {
                Some(h) => {
                    &&& final(self).held() == old(self).held().insert(key@)
                    &&& final(self).pinned_set() == old(self).pinned_set().insert(key@)
                    &&& forall|k: Seq<char>| #[trigger] final(self).handle_of(k) == if k == key@ { Some(h) } else { old(self).handle_of(k) }
                    &&& final(self).given_up() == old(self).given_up()
                },
                None => {
                    &&& final(self).held() == old(self).held()
                    &&& final(self).pinned_set() == old(self).pinned_set()
                    &&& forall|k: Seq<char>| #[trigger] final(self).handle_of(k) == old(self).handle_of(k)
                    &&& final(self).given_up() == old(self).given_up().insert(key@)
                },
            },
    {
        match handle {
            Some(h) => {
                add_text(&mut self.pinned, key.as_str());
                proof {
                    lemma_add_set(old(self).pinned@, self.pinned@, key@);
                }
                put(&mut self.handles, key, h);
            },
            None => {
                add_text(&mut self.unavailable, key.as_str());
                proof {
                    lemma_add_set(old(self).unavailable@, self.unavailable@, key@);
                }
            },
        }
    }
}

/// What starting the next batch does to a queue: `room` more fetches may start;
/// each queued picture is taken off in turn and started if `wanted` says so,
/// until there is no room or no queue. How many were taken off, and those started.
pub open spec fn batch_spec(queue: Seq<Seq<char>>, wanted: spec_fn(Seq<char>) -> bool, room: int) -> (int, Seq<Seq<char>>)
    decreases queue.len(),
{
    if room <= 0 || queue.len() == 0 {
        (0, Seq::empty())
    } else {
        let u = queue[0];
        let rest = batch_spec(queue.drop_first(), wanted, if wanted(u) { room - 1 } else { room });
        (rest.0 + 1, if wanted(u) { seq![u] + rest.1 } else { rest.1 })
    }
}

proof fn lemma_batch_bounds(queue: Seq<Seq<char>>, wanted: spec_fn(Seq<char>) -> bool, room: int)
    ensures
        0 <= batch_spec(queue, wanted, room).0 <= queue.len(),
        batch_spec(queue, wanted, room).1.len() <= if room > 0 { room } else { 0 },
        forall|i: int| 0 <= i < batch_spec(queue, wanted, room).1.len() ==> wanted(#[trigger] batch_spec(queue, wanted, room).1[i])
            && queue.take(batch_spec(queue, wanted, room).0).contains(batch_spec(queue, wanted, room).1[i]),
    decreases queue.len(),
{
    if room > 0 && queue.len() > 0 {
        let u = queue[0];
        let r2 = if wanted(u) { room - 1 } else { room };
        lemma_batch_bounds(queue.drop_first(), wanted, r2);
        let rest = batch_spec(queue.drop_first(), wanted, r2);
        let all = batch_spec(queue, wanted, room);
        assert forall|i: int| 0 <= i < all.1.len() implies wanted(#[trigger] all.1[i]) && queue.take(all.0).contains(all.1[i]) by {
            if wanted(u) && i == 0 {
                assert(queue.take(all.0)[0] == u);
            } else {
                let j = if wanted(u) { i - 1 } else { i };
                assert(all.1[i] == rest.1[j]);
                let w = choose|w: int| 0 <= w < queue.drop_first().take(rest.0).len() && queue.drop_first().take(rest.0)[w] == rest.1[j];
                assert(queue.take(all.0)[w + 1] == rest.1[j]);
            }
        }
    }
}

/// Where the window of pictures starts: `take / 3` rows above the row on screen.
pub open spec fn focus_start(focus: int, take: int) -> int {
    if focus >= take / 3 { focus - take / 3 } else { 0 }
}

/// The order in which the cards around `focus` are wanted: from a little above
/// the row on screen to the end, then back up from there to the top, `take` of
/// them at most.
pub open spec fn focus_seq(len: int, focus: int, take: int) -> Seq<int> {
    let start = focus_start(focus, take);
    let n = if take < len { take } else { len };
    Seq::new(
        if n > 0 { n as nat } else { 0 },
        |k: int| if k < len - start { start + k } else { start - 1 - (k - (len - start)) },
    )
}

/// The cards around the row on screen, in the order their pictures are wanted.
pub fn focus_order(len: usize, focus: usize, take: usize) -> (r: Vec<usize>)
    requires
        len == 0 || focus < len,
    ensures
        r@.len() == focus_seq(len as int, focus as int, take as int).len(),
        forall|k: int| 0 <= k < r@.len() ==> r@[k] == focus_seq(len as int, focus as int, take as int)[k],
        forall|k: int| 0 <= k < r@.len() ==> #[trigger] r@[k] < len,
{
    let mut r: Vec<usize> = Vec::new();
    if len == 0 {
        return r;
    }
    let start = if focus >= take / 3 { focus - take / 3 } else { 0 };
    let n = if take < len { take } else { len };
    let mut k: usize = 0;
    while k < n
        invariant
            0 < len,
            start <= focus < len,
            start == focus_start(focus as int, take as int),
            n == (if take < len { take } else { len }),
            k <= n,
            r@.len() == k,
            forall|j: int| 0 <= j < k ==> r@[j] == focus_seq(len as int, focus as int, take as int)[j],
            forall|j: int| 0 <= j < k ==> #[trigger] r@[j] < len,
        decreases n - k,
    {
        let v = if k < len - start { start + k } else { start - 1 - (k - (len - start)) };
        r.push(v);
        k += 1;
    }
    r
}

/// A broken link is retried a few times and then left alone. When a fetch of a
/// picture that is neither held, given up on nor queued fails, the picture is no
/// longer being fetched. A failure that makes a retry pointless gives the picture
/// up, and it is then wanted no more. Another failure leaves it available and
/// queues it again exactly when the failures counted for it since it was last
/// wanted afresh, this one included, stay under `MAX_ATTEMPTS`.
pub proof fn a_broken_link_is_retried_a_few_times_and_then_left_alone<H>(
    before: Gallery<H>,
    after: Gallery<H>,
    url: Seq<char>,
    retry: Retry,
)
    requires
        before.failure_leaves(after, url, retry),
        !before.settled(url),
        !before.waiting().contains(url),
    ensures
        !after.fetching().contains(url),
        retry == Retry::Pointless ==> after.given_up().contains(url) && !after.wanted(url),
        retry == Retry::Worth ==> {
            &&& !after.given_up().contains(url)
            &&& after.tries(url) == before.tries(url) + 1 || after.tries(url) == 255
            &&& (after.waiting().contains(url) <==> before.tries(url) + 1 < MAX_ATTEMPTS)
        },
{
    if retry == Retry::Worth {
        let n = if before.tries(url) < 255 { before.tries(url) + 1 } else { 255 };
        assert(after.tries(url) == n);
        if n < MAX_ATTEMPTS {
            assert(after.waiting() == before.waiting().push(url));
            assert(after.waiting()[before.waiting().len() as int] == url);
        }
    }
}

/// A picture given up on is never wanted, so no batch starts it and prioritising
/// it starts nothing.
pub proof fn a_picture_given_up_on_is_never_fetched<H>(g: Gallery<H>, url: Seq<char>)
    requires
        g.given_up().contains(url),
    ensures
        !g.wanted(url),
{
}

/// Every card can be brought into the window: with the focus on a card, the
/// window holds it, whatever the length of the list and the size of the window.
pub proof fn every_card_is_reachable(len: int, i: int, take: int)
    requires
        0 <= i < len,
        take >= 1,
    ensures
        focus_seq(len, i, take).contains(i),
{
    let start = focus_start(i, take);
    let k = i - start;
    assert(focus_seq(len, i, take)[k] == i);
}

/// The window names each card at most once, and only cards of the list.
pub proof fn the_window_has_no_repeats(len: int, focus: int, take: int)
    requires
        len == 0 || 0 <= focus < len,
        take >= 0,
    ensures
        focus_seq(len, focus, take).no_duplicates(),
        forall|k: int| 0 <= k < focus_seq(len, focus, take).len() ==> 0 <= #[trigger] focus_seq(len, focus, take)[k] < len,
{
}

/// The texts at the positions `order` names in `remote`.
pub open spec fn picks(remote: Seq<String>, order: Seq<int>) -> Seq<Seq<char>> {
    Seq::new(order.len(), |k: int| remote[order[k]]@)
}

/// What queueing `urls` in turn leaves in an empty queue: each one wanted and
/// not queued already goes to the back.
pub open spec fn enqueue_all(urls: Seq<Seq<char>>, wanted: spec_fn(Seq<char>) -> bool) -> Seq<Seq<char>>
    decreases urls.len(),
{
    if urls.len() == 0 {
        Seq::empty()
    } else {
        let q = enqueue_all(urls.drop_last(), wanted);
        let u = urls.last();
        if wanted(u) && !q.contains(u) {
            q.push(u)
        } else {
            q
        }
    }
}

pub(crate) proof fn lemma_add_set(before: Seq<String>, after: Seq<String>, k: Seq<char>)
    requires
        texts(before).contains(k) ==> texts(after) == texts(before),
        !texts(before).contains(k) ==> texts(after) == texts(before).push(k),
    ensures
        set_of(after) == set_of(before).insert(k),
{
    assert forall|q: Seq<char>| texts(after).contains(q) <==> texts(before).contains(q) || q == k by {
        let o = texts(before);
        let n = texts(after);
        if !o.contains(k) {
            if n.contains(q) && q != k {
                let j = choose|j: int| 0 <= j < n.len() && n[j] == q;
                assert(o[j] == q);
            }
            if o.contains(q) {
                let j = choose|j: int| 0 <= j < o.len() && o[j] == q;
                assert(n[j] == q);
            }
            if q == k {
                assert(n[o.len() as int] == q);
            }
        }
    }
    assert(set_of(after) =~= set_of(before).insert(k));
}


/// How many local pictures are decoded to pixels up front; the rest are handed
/// over encoded.
pub const MAX_RGBA_DECODES: usize = 48;

/// What becomes of a library picture: given up on, decoded to pixels, or handed
/// over as it is encoded.
#[derive(Debug, Clone, Copy, PartialEq, Eq, Structural)]
pub enum LocalPicture {
    Unreadable,
    Pixels,
    Encoded,
}

/// What becomes of a library picture whose file read as `bytes` (none when it
/// could not be read), when `decoded` pictures were decoded to pixels already:
/// a file that does not read or look like a picture is given up on; the first
/// `MAX_RGBA_DECODES` are decoded; the rest are handed over encoded.
pub fn local_picture(bytes: Option<&[u8]>, decoded: usize) -> (r: LocalPicture)
    ensures
        match bytes {
            None => r == LocalPicture::Unreadable,
            Some(b) => if !looks_decodable_spec(b@) {
                r == LocalPicture::Unreadable
            } else if decoded < MAX_RGBA_DECODES {
                r == LocalPicture::Pixels
            } else {
                r == LocalPicture::Encoded
            },
        },
{
    match bytes {
        None => LocalPicture::Unreadable,
        Some(b) => if !looks_decodable(b) {
            LocalPicture::Unreadable
        } else if decoded < MAX_RGBA_DECODES {
            LocalPicture::Pixels
        } else {
            LocalPicture::Encoded
        },
    }
}
} // verus!
