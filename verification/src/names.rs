//! File names: how a name divides into stem and extension, and which names
//! the catalog takes for comics.

use crate::text::{chars_of, last_index_of, last_position, lemma_last_position, lowercase, to_lowercase};
use vstd::prelude::*;
use vstd::string::StrSliceExecFns;

verus! {

/// The views of a vector of strings, element by element.
pub open spec fn texts(v: Seq<String>) -> Seq<Seq<char>> {
    Seq::new(v.len(), |i: int| v[i]@)
}

/// The name `..`, which stands for a parent directory and is no file name.
pub open spec fn parent_marker() -> Seq<char> {
    seq!['.', '.']
}

/// Where a file name divides into stem and extension: at its last `.`,
/// unless that is the name's first character or the name is `..`.
pub open spec fn division(name: Seq<char>) -> Option<int> {
    if name == parent_marker() {
        None
    } else {
        match last_position(name, '.') {
            Some(i) => if i == 0 {
                None
            } else {
                Some(i)
            },
            None => None,
        }
    }
}

/// The file name without its extension: what stands before the dividing
/// `.`, or the whole name where none divides it.
pub open spec fn stem_of(name: Seq<char>) -> Seq<char> {
    match division(name) {
        Some(i) => name.take(i),
        None => name,
    }
}

/// The extension of a file name: what stands behind the dividing `.`.
pub open spec fn extension_of(name: Seq<char>) -> Option<Seq<char>> {
    match division(name) {
        Some(i) => Some(name.skip(i + 1)),
        None => None,
    }
}

/// The extension that marks a comic archive.
pub open spec fn comic_extension() -> Seq<char> {
    seq!['c', 'b', 'z']
}

/// A file name is a comic's where its extension is `cbz` in any mix of
/// upper and lower case.
pub open spec fn is_comic_name(name: Seq<char>) -> bool {
    extension_of(name) matches Some(e) && lowercase(e) == comic_extension()
}

/// The index at which `name` divides into stem and extension.
pub fn dividing_dot(name: &Vec<char>) -> (r: Option<usize>)
    ensures
        match r {
            Some(i) => division(name@) == Some(i as int) && 0 < i < name@.len(),
            None => division(name@) is None,
        },
{
    proof {
        lemma_last_position(name@, '.');
    }
    if name.len() == 2 && name[0] == '.' && name[1] == '.' {
        assert(name@ =~= parent_marker());
        return None;
    }
    assert(name@ != parent_marker()) by {
        if name@ == parent_marker() {
            assert(parent_marker().len() == 2);
            assert(parent_marker()[0] == '.');
            assert(parent_marker()[1] == '.');
        }
    }
    match last_index_of(name, '.') {
        Some(i) => if i == 0 {
            None
        } else {
            Some(i)
        },
        None => None,
    }
}

/// The file name without its extension.
pub fn file_stem(name: &str) -> (r: String)
    ensures
        r@ == stem_of(name@),
{
    let chars = chars_of(name);
    match dividing_dot(&chars) {
        Some(i) => {
            assert(name@.subrange(0, i as int) =~= name@.take(i as int));
            name.substring_char(0, i).to_owned()
        },
        None => name.to_owned(),
    }
}

/// The extension of a file name, if it has one.
pub fn extension(name: &str) -> (r: Option<String>)
    ensures
        match r {
            Some(e) => extension_of(name@) == Some(e@),
            None => extension_of(name@) is None,
        },
{
    let chars = chars_of(name);
    let end: usize = chars.len();
    match dividing_dot(&chars) {
        Some(i) => {
            assert(i < end);
            assert(name@.subrange(i + 1, name@.len() as int) =~= name@.skip(i + 1));
            Some(name.substring_char(i + 1, end).to_owned())
        },
        None => None,
    }
}

/// Whether the extension, taken apart already and folded to lower case, is
/// that of a comic archive.
pub fn is_comic_extension(lowered: &str) -> (b: bool)
    ensures
        b == (lowered@ == comic_extension()),
{
    let chars = chars_of(lowered);
    let b = chars.len() == 3 && chars[0] == 'c' && chars[1] == 'b' && chars[2] == 'z';
    proof {
        if b {
            assert(lowered@ =~= comic_extension());
        } else if lowered@ == comic_extension() {
            assert(comic_extension().len() == 3);
            assert(comic_extension()[0] == 'c');
            assert(comic_extension()[1] == 'b');
            assert(comic_extension()[2] == 'z');
        }
    }
    b
}

/// Whether a file of this name is taken for a comic archive.
pub fn is_comic_file(name: &str) -> (b: bool)
    ensures
        b == is_comic_name(name@),
{
    match extension(name) {
        Some(e) => {
            let lowered = to_lowercase(e.as_str());
            is_comic_extension(lowered.as_str())
        },
        None => false,
    }
}

/// A copy of a vector of strings.
pub fn clone_texts(v: &Vec<String>) -> (r: Vec<String>)
    ensures
        texts(r@) == texts(v@),
{
    let mut r: Vec<String> = Vec::new();
    let mut i: usize = 0;
    while i < v.len()
        invariant
            i <= v.len(),
            r.len() == i,
            forall|j: int| 0 <= j < i ==> r@[j]@ == v@[j]@,
        decreases v.len() - i,
    {
        r.push(v[i].clone());
        i += 1;
    }
    assert(texts(r@) =~= texts(v@));
    r
}

} // verus!
