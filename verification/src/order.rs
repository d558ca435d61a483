//! Stable ordering by keys made of numbers and then a text.
use vstd::prelude::*;

use crate::text::{lemma_lex_total, lemma_lex_transitive, lex_less, lex_lt};

verus! {

/// What a list is ordered by: numbers compared first to last, then a text.
#[derive(Debug, Clone)]
pub struct SortKey {
    pub nums: Vec<u128>,
    pub text: Vec<char>,
}

pub open spec fn key_view(k: SortKey) -> (Seq<u128>, Seq<char>) {
    (k.nums@, k.text@)
}

pub open spec fn key_views(v: Seq<SortKey>) -> Seq<(Seq<u128>, Seq<char>)> {
    v.map_values(|k: SortKey| key_view(k))
}

/// `a` comes before `b` number by number, a shorter list first when one is the
/// start of the other.
pub open spec fn nums_lt(a: Seq<u128>, b: Seq<u128>) -> bool
    decreases a.len(),
{
    if a.len() == 0 {
        b.len() > 0
    } else if b.len() == 0 {
        false
    } else if a[0] != b[0] {
        a[0] < b[0]
    } else {
        nums_lt(a.drop_first(), b.drop_first())
    }
}

/// Key `a` comes before key `b`: by its numbers, then by its text.
pub open spec fn key_lt(a: (Seq<u128>, Seq<char>), b: (Seq<u128>, Seq<char>)) -> bool {
    nums_lt(a.0, b.0) || (a.0 == b.0 && lex_lt(a.1, b.1))
}

proof fn lemma_nums_total(a: Seq<u128>, b: Seq<u128>)
    ensures
        a != b ==> (nums_lt(a, b) || nums_lt(b, a)),
        !(nums_lt(a, b) && nums_lt(b, a)),
        !nums_lt(a, a),
    decreases a.len(),
{
    if a.len() == 0 && b.len() == 0 {
        assert(a =~= b);
    }
    if a.len() > 0 && b.len() > 0 && a[0] == b[0] {
        lemma_nums_total(a.drop_first(), b.drop_first());
        if a != b {
            assert(a =~= seq![a[0]] + a.drop_first());
            assert(b =~= seq![b[0]] + b.drop_first());
        }
    }
    if a.len() > 0 {
        lemma_nums_total(a.drop_first(), a.drop_first());
    }
}

proof fn lemma_nums_transitive(a: Seq<u128>, b: Seq<u128>, c: Seq<u128>)
    requires
        nums_lt(a, b),
        nums_lt(b, c),
    ensures
        nums_lt(a, c),
    decreases a.len(),
{
    if a.len() > 0 && b.len() > 0 && c.len() > 0 && a[0] == b[0] && b[0] == c[0] {
        lemma_nums_transitive(a.drop_first(), b.drop_first(), c.drop_first());
    }
}

/// Of two different keys one comes first, and never both.
pub proof fn lemma_key_total(a: (Seq<u128>, Seq<char>), b: (Seq<u128>, Seq<char>))
    ensures
        a != b ==> (key_lt(a, b) || key_lt(b, a)),
        !(key_lt(a, b) && key_lt(b, a)),
        !key_lt(a, a),
{
    lemma_nums_total(a.0, b.0);
    lemma_lex_total(a.1, b.1);
}

/// The order of keys is transitive.
pub proof fn lemma_key_transitive(a: (Seq<u128>, Seq<char>), b: (Seq<u128>, Seq<char>), c: (Seq<u128>, Seq<char>))
    requires
        key_lt(a, b),
        key_lt(b, c),
    ensures
        key_lt(a, c),
{
    lemma_nums_total(a.0, b.0);
    lemma_nums_total(b.0, c.0);
    if nums_lt(a.0, b.0) && nums_lt(b.0, c.0) {
        lemma_nums_transitive(a.0, b.0, c.0);
    } else if a.0 == b.0 && b.0 == c.0 {
        lemma_lex_transitive(a.1, b.1, c.1);
    }
}

fn nums_less(a: &Vec<u128>, b: &Vec<u128>) -> (r: bool)
    ensures
        r == nums_lt(a@, b@),
{
    let mut i: usize = 0;
    assert(a@.skip(0) =~= a@);
    assert(b@.skip(0) =~= b@);
    while i < a.len() && i < b.len() && a[i] == b[i]
        invariant
            i <= a@.len(),
            i <= b@.len(),
            nums_lt(a@, b@) == nums_lt(a@.skip(i as int), b@.skip(i as int)),
        decreases a.len() - i,
    {
        assert(a@.skip(i as int).drop_first() =~= a@.skip(i + 1));
        assert(b@.skip(i as int).drop_first() =~= b@.skip(i + 1));
        i += 1;
    }
    if i == a.len() {
        i < b.len()
    } else if i == b.len() {
        false
    } else {
        a[i] < b[i]
    }
}

fn same_nums(a: &Vec<u128>, b: &Vec<u128>) -> (r: bool)
    ensures
        r == (a@ == b@),
{
    if a.len() != b.len() {
        return false;
    }
    let mut i: usize = 0;
    while i < a.len()
        invariant
            a@.len() == b@.len(),
            i <= a@.len(),
            forall|j: int| 0 <= j < i ==> a@[j] == b@[j],
        decreases a.len() - i,
    {
        if a[i] != b[i] {
            return false;
        }
        i += 1;
    }
    assert(a@ =~= b@);
    true
}

/// Whether key `a` comes before key `b`.
pub fn key_less(a: &SortKey, b: &SortKey) -> (r: bool)
    ensures
        r == key_lt(key_view(*a), key_view(*b)),
{
    if nums_less(&a.nums, &b.nums) {
        return true;
    }
    same_nums(&a.nums, &b.nums) && lex_less(&a.text, &b.text)
}

/// `order` lists the positions of `keys` once each, in key order, and keeps the
/// positions of equal keys in their first order.
pub open spec fn stably_sorted(keys: Seq<(Seq<u128>, Seq<char>)>, order: Seq<usize>) -> bool {
    &&& order.len() == keys.len()
    &&& order.no_duplicates()
    &&& forall|i: int| 0 <= i < order.len() ==> #[trigger] order[i] < keys.len()
    &&& forall|i: int, j: int| 0 <= i < j < order.len() ==> !key_lt(keys[#[trigger] order[j] as int], keys[#[trigger] order[i] as int])
    &&& forall|i: int, j: int| 0 <= i < j < order.len() && keys[#[trigger] order[i] as int] == keys[#[trigger] order[j] as int] ==> order[i] < order[j]
}

/// The part of `stably_sorted` that holds while the first `n` positions are placed.
spec fn placed(keys: Seq<(Seq<u128>, Seq<char>)>, order: Seq<usize>, n: int) -> bool {
    &&& order.len() == n
    &&& order.no_duplicates()
    &&& forall|i: int| 0 <= i < order.len() ==> #[trigger] order[i] < n
    &&& forall|i: int, j: int| 0 <= i < j < order.len() ==> !key_lt(keys[#[trigger] order[j] as int], keys[#[trigger] order[i] as int])
    &&& forall|i: int, j: int| 0 <= i < j < order.len() && keys[#[trigger] order[i] as int] == keys[#[trigger] order[j] as int] ==> order[i] < order[j]
}

#[verifier::rlimit(40)]
proof fn lemma_place(keys: Seq<(Seq<u128>, Seq<char>)>, r: Seq<usize>, n: usize, p: int)
    requires
        n < keys.len(),
        0 <= p <= r.len(),
        placed(keys, r, n as int),
        forall|q: int| 0 <= q < p ==> !key_lt(keys[n as int], keys[#[trigger] r[q] as int]),
        p < r.len() ==> key_lt(keys[n as int], keys[r[p] as int]),
    ensures
        placed(keys, r.insert(p, n), n + 1),
{
    let s = r.insert(p, n);
    r.insert_ensures(p, n);
    assert forall|i: int| p < i < s.len() implies #[trigger] s[i] == r[i - 1] by {
        assert(s[(i - 1) + 1] == r[i - 1]);
    }
    assert forall|q: int| p <= q < r.len() implies key_lt(keys[n as int], keys[#[trigger] r[q] as int]) by {
        if q > p {
            lemma_key_total(keys[r[q] as int], keys[r[p] as int]);
            if key_lt(keys[r[p] as int], keys[r[q] as int]) {
                lemma_key_transitive(keys[n as int], keys[r[p] as int], keys[r[q] as int]);
            }
        }
    }
    assert forall|i: int| 0 <= i < s.len() implies #[trigger] s[i] < n + 1 by {
        if i < p {
            assert(s[i] == r[i]);
        }
    }
    assert forall|a: int, b: int| 0 <= a < s.len() && 0 <= b < s.len() && a != b implies s[a] != s[b] by {
        if a == p {
            if b < p {
                assert(s[b] == r[b]);
            }
        } else if b == p {
            if a < p {
                assert(s[a] == r[a]);
            }
        } else {
            let a2 = if a < p { a } else { a - 1 };
            let b2 = if b < p { b } else { b - 1 };
            assert(s[a] == r[a2]);
            assert(s[b] == r[b2]);
        }
    }
    assert forall|i: int, j: int| 0 <= i < j < s.len() implies !key_lt(keys[#[trigger] s[j] as int], keys[#[trigger] s[i] as int]) by {
        if j < p {
            assert(s[i] == r[i] && s[j] == r[j]);
        } else if j == p {
            assert(s[i] == r[i]);
        } else if i < p {
            assert(s[i] == r[i] && s[j] == r[j - 1]);
            lemma_key_total(keys[r[j - 1] as int], keys[r[i] as int]);
            if key_lt(keys[r[j - 1] as int], keys[r[i] as int]) {
                lemma_key_total(keys[n as int], keys[r[i] as int]);
                lemma_key_transitive(keys[n as int], keys[r[j - 1] as int], keys[r[i] as int]);
            }
        } else if i == p {
            assert(s[j] == r[j - 1]);
            lemma_key_total(keys[n as int], keys[r[j - 1] as int]);
        } else {
            assert(s[i] == r[i - 1] && s[j] == r[j - 1]);
        }
    }
    assert forall|i: int, j: int| 0 <= i < j < s.len() && keys[#[trigger] s[i] as int] == keys[#[trigger] s[j] as int] implies s[i] < s[j] by {
        if j < p {
            assert(s[i] == r[i] && s[j] == r[j]);
        } else if j == p {
            assert(s[i] == r[i]);
        } else if i < p {
            assert(s[i] == r[i] && s[j] == r[j - 1]);
        } else if i == p {
            assert(s[j] == r[j - 1]);
            lemma_key_total(keys[n as int], keys[n as int]);
        } else {
            assert(s[i] == r[i - 1] && s[j] == r[j - 1]);
        }
    }
}

/// The positions of `keys` in key order, equal keys keeping their first order:
/// what a stable sort by key gives.
pub fn stable_order(keys: &Vec<SortKey>) -> (order: Vec<usize>)
    ensures
        stably_sorted(key_views(keys@), order@),
{
    let ghost ks = key_views(keys@);
    let mut r: Vec<usize> = Vec::new();
    let mut n: usize = 0;
    while n < keys.len()
        invariant
            n <= keys@.len(),
            ks == key_views(keys@),
            ks.len() == keys@.len(),
            placed(ks, r@, n as int),
        decreases keys.len() - n,
    {
        let mut p: usize = 0;
        while p < r.len() && !key_less(&keys[n], &keys[r[p]])
            invariant
                n < keys@.len(),
                p <= r@.len(),
                ks == key_views(keys@),
                ks.len() == keys@.len(),
                placed(ks, r@, n as int),
                forall|q: int| 0 <= q < p ==> !key_lt(ks[n as int], ks[#[trigger] r@[q] as int]),
            decreases r.len() - p,
        {
            assert(ks[r@[p as int] as int] == key_view(keys@[r@[p as int] as int]));
            p += 1;
        }
        proof {
            if p < r.len() {
                assert(ks[r@[p as int] as int] == key_view(keys@[r@[p as int] as int]));
            }
            lemma_place(ks, r@, n, p as int);
        }
        r.insert(p, n);
        n += 1;
    }
    r
}


/// The items of `items` in the order `order` gives their positions.
pub fn arrange<T>(items: Vec<T>, order: &Vec<usize>) -> (r: Vec<T>)
    requires
        order@.len() == items@.len(),
        order@.no_duplicates(),
        forall|i: int| 0 <= i < order@.len() ==> #[trigger] order@[i] < items@.len(),
    ensures
        r@.len() == order@.len(),
        forall|k: int| 0 <= k < r@.len() ==> #[trigger] r@[k] == items@[order@[k] as int],
{
    let ghost start = items@;
    let mut items = items;
    let mut slots: Vec<Option<T>> = Vec::new();
    let n = items.len();
    while items.len() > 0
        invariant
            slots@.len() + items@.len() == n,
            n == start.len(),
            items@ == start.skip(slots@.len() as int),
            forall|i: int| 0 <= i < slots@.len() ==> #[trigger] slots@[i] == Some(start[i]),
        decreases items@.len(),
    {
        let ghost before = items@;
        let item = items.remove(0);
        assert(item == start[slots@.len() as int]);
        assert(items@ =~= start.skip(slots@.len() as int + 1));
        slots.push(Some(item));
    }
    let mut r: Vec<T> = Vec::new();
    let mut k: usize = 0;
    while k < order.len()
        invariant
            k <= order@.len(),
            order@.len() == n,
            n == start.len(),
            slots@.len() == n,
            order@.no_duplicates(),
            forall|i: int| 0 <= i < order@.len() ==> #[trigger] order@[i] < n,
            r@.len() == k,
            forall|j: int| 0 <= j < k ==> #[trigger] r@[j] == start[order@[j] as int],
            forall|i: int| 0 <= i < n ==> (#[trigger] slots@[i] == if (exists|j: int| 0 <= j < k && order@[j] == i) { None } else { Some(start[i]) }),
        decreases order@.len() - k,
    {
        let at = order[k];
        let ghost s0 = slots@;
        proof {
            assert(!(exists|j: int| 0 <= j < k && order@[j] == at)) by {
                if exists|j: int| 0 <= j < k && order@[j] == at {
                    let j = choose|j: int| 0 <= j < k && order@[j] == at;
                    assert(order@[j] == order@[k as int]);
                }
            }
            assert(slots@[at as int] == Some(start[at as int]));
        }
        let mut taken: Option<T> = None;
        std::mem::swap(&mut taken, &mut slots[at]);
        proof {
            assert(slots@ == s0.update(at as int, None));
            assert forall|i: int| 0 <= i < n implies (#[trigger] slots@[i] == if (exists|j: int| 0 <= j < k + 1 && order@[j] == i) { None } else { Some(start[i]) }) by {
                if i == at {
                    assert(order@[k as int] == i);
                } else {
                    if exists|j: int| 0 <= j < k + 1 && order@[j] == i {
                        let j = choose|j: int| 0 <= j < k + 1 && order@[j] == i;
                        assert(j < k);
                    }
                }
            }
        }
        match taken {
            Some(t) => {
                r.push(t);
            },
            None => {
                assert(false);
            },
        }
        k += 1;
    }
    r
}
} // verus!
