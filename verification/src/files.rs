use vstd::prelude::*;

use crate::paths::{extension, extension_of, file_name, file_name_of, file_stem, file_stem_of};
use crate::text::{chars_of, lowercase, string_of, to_lowercase};

verus! {

pub const MAP_EXTS: [&'static str; 2] = ["upk", "udk"];

pub const IMAGE_EXTS: [&'static str; 4] = ["jpg", "jpeg", "png", "webp"];

const INFO_EXTS: [&'static str; 1] = ["json"];

pub open spec fn map_exts() -> Seq<Seq<char>> {
    seq![seq!['u', 'p', 'k'], seq!['u', 'd', 'k']]
}

pub open spec fn image_exts() -> Seq<Seq<char>> {
    seq![seq!['j', 'p', 'g'], seq!['j', 'p', 'e', 'g'], seq!['p', 'n', 'g'], seq!['w', 'e', 'b', 'p']]
}

pub open spec fn info_exts() -> Seq<Seq<char>> {
    seq![seq!['j', 's', 'o', 'n']]
}

/// Whether the lowercased extension of `path` is one of `exts`.
pub open spec fn has_ext_spec(path: Seq<char>, exts: Seq<Seq<char>>) -> bool {
    match extension(path) {
        Some(e) => exts.contains(lowercase(e)),
        None => false,
    }
}

pub open spec fn is_map_spec(path: Seq<char>) -> bool {
    has_ext_spec(path, map_exts())
}

pub open spec fn is_image_spec(path: Seq<char>) -> bool {
    has_ext_spec(path, image_exts())
}

/// No file is both a map and a picture.
pub proof fn lemma_map_is_not_image(path: Seq<char>)
    ensures
        !(is_map_spec(path) && is_image_spec(path)),
{
    if is_map_spec(path) && is_image_spec(path) {
        let e = lowercase(extension(path)->0);
        let i = choose|i: int| 0 <= i < map_exts().len() && map_exts()[i] == e;
        let j = choose|j: int| 0 <= j < image_exts().len() && image_exts()[j] == e;
        assert(map_exts()[i][0] == 'u');
        assert(image_exts()[j][0] != 'u');
    }
}

pub open spec fn worth_extracting_spec(path: Seq<char>) -> bool {
    is_map_spec(path) || is_image_spec(path) || has_ext_spec(path, info_exts())
}


/// Whether the extension of `path`, lowercased, is one of `exts`.
pub fn has_ext(path: &str, exts: &[&str]) -> (b: bool)
    ensures
        b == has_ext_spec(path@, exts@.map_values(|e: &str| e@)),
{
    let p = chars_of(path);
    let ghost wanted = exts@.map_values(|e: &str| e@);
    match extension_of(&p) {
        None => false,
        Some(ext) => {
            let lower = chars_of(&to_lowercase(&string_of(&ext)).as_str());
            let mut i: usize = 0;
            while i < exts.len()
                invariant
                    i <= exts.len(),
                    lower@ == lowercase(ext@),
                    extension(path@) == Some(ext@),
                    wanted == exts@.map_values(|e: &str| e@),
                    forall|j: int| 0 <= j < i ==> wanted[j] != lower@,
                decreases exts.len() - i,
            {
                let candidate = chars_of(exts[i]);
                if crate::text::same_chars(&candidate, &lower) {
                    assert(wanted[i as int] == lower@);
                    assert(wanted.contains(lower@));
                    assert(extension(path@) == Some(ext@));
                    assert(has_ext_spec(path@, wanted));
                    return true;
                }
                i += 1;
            }
            assert(!wanted.contains(lower@));
            false
        },
    }
}

/// Whether `path` names a map package.
pub fn is_map(path: &str) -> (b: bool)
    ensures
        b == is_map_spec(path@),
{
    proof {
        reveal_strlit("upk");
        reveal_strlit("udk");
    }
    let exts = MAP_EXTS;
    proof {
        assert(exts@.len() == 2);
        assert(exts@[0]@ =~= seq!['u', 'p', 'k']);
        assert(exts@[1]@ =~= seq!['u', 'd', 'k']);
        assert(exts@.map_values(|e: &str| e@) =~= map_exts());
    }
    has_ext(path, &exts)
}

/// Whether `path` names a picture.
pub fn is_image(path: &str) -> (b: bool)
    ensures
        b == is_image_spec(path@),
{
    proof {
        reveal_strlit("jpg");
        reveal_strlit("jpeg");
        reveal_strlit("png");
        reveal_strlit("webp");
    }
    let exts = IMAGE_EXTS;
    proof {
        assert(exts@[0]@ =~= seq!['j', 'p', 'g']);
        assert(exts@[1]@ =~= seq!['j', 'p', 'e', 'g']);
        assert(exts@[2]@ =~= seq!['p', 'n', 'g']);
        assert(exts@[3]@ =~= seq!['w', 'e', 'b', 'p']);
        assert(exts@.map_values(|e: &str| e@) =~= image_exts());
    }
    has_ext(path, &exts)
}

/// Whether a file of this name belongs in the library: a map, a picture or an info file.
pub fn worth_extracting(path: &str) -> (b: bool)
    ensures
        b == worth_extracting_spec(path@),
{
    proof {
        reveal_strlit("json");
    }
    let exts = INFO_EXTS;
    proof {
        assert(exts@[0]@ =~= seq!['j', 's', 'o', 'n']);
        assert(exts@.map_values(|e: &str| e@) =~= info_exts());
    }
    is_map(path) || is_image(path) || has_ext(path, &exts)
}

/// What to call `path`: its file name, or the whole path when it has none.
pub fn name_of(path: &str) -> (r: String)
    ensures
        r@ == match file_name(path@) {
            Some(n) => n,
            None => path@,
        },
{
    let p = chars_of(path);
    match file_name_of(&p) {
        Some(n) => string_of(&n),
        None => string_of(&p),
    }
}

/// The file name of `path` without its extension.
pub fn stem_of(path: &str) -> (r: Option<String>)
    ensures
        match r {
            Some(s) => file_stem(path@) == Some(s@),
            None => file_stem(path@) is None,
        },
{
    let p = chars_of(path);
    match file_stem_of(&p) {
        Some(s) => Some(string_of(&s)),
        None => None,
    }
}

} // verus!
