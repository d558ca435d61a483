//! Writing a file so that it is either all there or not there at all: the data
//! goes to a staging file beside the destination, which is then renamed.
use vstd::prelude::*;

use crate::paths::{file_name, file_name_of, is_sep, join, join_chars, parent, parent_of};
use crate::text::{append, chars_of, string_of};

verus! {

/// The staging file for `dest`: `<name>.part` in the same folder.
pub open spec fn part_spec(dest: Seq<char>) -> Seq<char> {
    let folder = match parent(dest) {
        Some(p) => p,
        None => "."@,
    };
    let name = match file_name(dest) {
        Some(n) => n,
        None => Seq::empty(),
    };
    join(folder, name + ".part"@)
}

/// The staging file for `dest`, beside it and named after its whole file name,
/// so that two destinations never share one.
pub fn part_of(dest: &str) -> (p: String)
    ensures
        p@ == part_spec(dest@),
{
    let d = chars_of(dest);
    let folder = match parent_of(&d) {
        Some(p) => p,
        None => chars_of("."),
    };
    let mut name = match file_name_of(&d) {
        Some(n) => n,
        None => Vec::new(),
    };
    append(&mut name, &chars_of(".part"));
    string_of(&join_chars(&folder, &name))
}

proof fn lemma_no_slash_after_last(p: Seq<char>)
    ensures
        -1 <= crate::paths::last_slash(p) < p.len(),
        forall|i: int| crate::paths::last_slash(p) < i < p.len() ==> !is_sep(p[i]),
    decreases p.len(),
{
    if p.len() > 0 && !is_sep(p.last()) {
        lemma_no_slash_after_last(p.drop_last());
        assert forall|i: int| crate::paths::last_slash(p) < i < p.len() implies !is_sep(p[i]) by {
            if i < p.len() - 1 {
                assert(p[i] == p.drop_last()[i]);
            }
        }
    }
}

proof fn lemma_name_has_no_slash(p: Seq<char>)
    requires
        file_name(p) is Some,
    ensures
        file_name(p)->0.len() > 0,
        forall|i: int| 0 <= i < file_name(p)->0.len() ==> !is_sep(file_name(p)->0[i]),
{
    let q = crate::paths::rstrip(p);
    lemma_no_slash_after_last(q);
    let k = crate::paths::last_slash(q);
    assert forall|i: int| 0 <= i < file_name(p)->0.len() implies !is_sep(file_name(p)->0[i]) by {
        assert(file_name(p)->0[i] == q[k + 1 + i]);
    }
}

/// Two destinations in one folder with different file names never share a
/// staging file, even when their names differ only in the extension.
pub proof fn staging_files_are_distinct(a: Seq<char>, b: Seq<char>)
    requires
        parent(a) == parent(b),
        file_name(a) is Some,
        file_name(b) is Some,
        file_name(a) != file_name(b),
    ensures
        part_spec(a) != part_spec(b),
{
    lemma_name_has_no_slash(a);
    lemma_name_has_no_slash(b);
    let folder = match parent(a) {
        Some(p) => p,
        None => "."@,
    };
    let na = file_name(a)->0;
    let nb = file_name(b)->0;
    let ra = na + ".part"@;
    let rb = nb + ".part"@;
    assert(ra[0] == na[0]);
    assert(rb[0] == nb[0]);
    if part_spec(a) == part_spec(b) {
        let pre = if folder.len() == 0 || is_sep(folder.last()) { folder } else { folder + seq!['/'] };
        assert(join(folder, ra) =~= pre + ra);
        assert(join(folder, rb) =~= pre + rb);
        assert((pre + ra).skip(pre.len() as int) =~= ra);
        assert((pre + rb).skip(pre.len() as int) =~= rb);
        assert(ra == rb);
        assert(ra.take(na.len() as int) =~= na);
        assert(rb.take(nb.len() as int) =~= nb);
        assert(na =~= nb);
    }
}

} // verus!
