//! The records of the catalog: a comic, its cover, and the folder tree in
//! which the comics are found.

use crate::error::ComicError;
use crate::names::{clone_texts, file_stem, parent_marker, stem_of, texts};
use crate::percent::{encode, encoded};
use crate::text::{chars_of, contains, lowercase, occurs_in, to_lowercase};
use vstd::prelude::*;
use vstd::string::StringExecFns;

verus! {

/// One comic archive of the tree.
#[derive(Debug, PartialEq, Eq)]
pub struct Comic {
    /// The archive's file name, by which the catalog keys it.
    pub id: String,
    /// The file name without its extension.
    pub name: String,
    /// The name of the file on disk.
    pub file_name: String,
    /// The URL path under which the comic is served.
    pub path: String,
    /// The folders from the root down to the one that holds the file.
    pub folder_path: Vec<String>,
    /// The folder that holds the file, unless that is the root.
    pub series: Option<String>,
}

/// What a `Comic` holds, as mathematical values.
pub struct ComicView {
    pub id: Seq<char>,
    pub name: Seq<char>,
    pub file_name: Seq<char>,
    pub path: Seq<char>,
    pub folder_path: Seq<Seq<char>>,
    pub series: Option<Seq<char>>,
}

impl View for Comic {
    type V = ComicView;

    open spec fn view(&self) -> ComicView {
        ComicView {
            id: self.id@,
            name: self.name@,
            file_name: self.file_name@,
            path: self.path@,
            folder_path: texts(self.folder_path@),
            series: match self.series {
                Some(s) => Some(s@),
                None => None,
            },
        }
    }
}

/// The prefix of every comic's URL path.
pub open spec fn path_prefix() -> Seq<char> {
    "/comics/"@
}

/// The record of the file `file_name` that lies in the folders
/// `folder_path` below the root.
pub open spec fn comic_at(folder_path: Seq<Seq<char>>, file_name: Seq<char>) -> ComicView {
    ComicView {
        id: file_name,
        name: stem_of(file_name),
        file_name: file_name,
        path: path_prefix() + encoded(file_name),
        folder_path: folder_path,
        series: if folder_path.len() == 0 {
            None
        } else {
            Some(folder_path.last())
        },
    }
}

/// `base` is a prefix of `full`, component by component.
pub open spec fn is_below(base: Seq<Seq<char>>, full: Seq<Seq<char>>) -> bool {
    base.len() <= full.len() && forall|i: int| 0 <= i < base.len() ==> base[i] == full[i]
}

/// The record of the file at `full`, a path given by its components, seen
/// from the directory `base`.  There is none where the path is empty, ends
/// in `..`, or does not lie below `base`.
pub open spec fn comic_from_path(base: Seq<Seq<char>>, full: Seq<Seq<char>>) -> Option<
    ComicView,
> {
    if full.len() == 0 || full.last() == parent_marker() || !is_below(base, full) {
        None
    } else if full.len() == base.len() {
        Some(comic_at(seq![], full.last()))
    } else {
        Some(comic_at(full.subrange(base.len() as int, full.len() - 1), full.last()))
    }
}

/// Whether a query matches a comic: its lowercase form stands in the
/// lowercase form of the comic's name, of its series or of one of its
/// folders.
pub open spec fn matches_query(c: ComicView, query: Seq<char>) -> bool {
    let q = lowercase(query);
    ||| occurs_in(q, lowercase(c.name))
    ||| (c.series matches Some(s) && occurs_in(q, lowercase(s)))
    ||| exists|i: int| 0 <= i < c.folder_path.len() && occurs_in(q, lowercase(#[trigger] c.folder_path[i]))
}

impl Clone for Comic {
    fn clone(&self) -> (r: Self)
        ensures
            r@ == self@,
    {
        Comic {
            id: self.id.clone(),
            name: self.name.clone(),
            file_name: self.file_name.clone(),
            path: self.path.clone(),
            folder_path: clone_texts(&self.folder_path),
            series: match &self.series {
                Some(s) => Some(s.clone()),
                None => None,
            },
        }
    }
}

impl Comic {
    /// The record of the file `file_name` in the folders `folder_path`.
    pub fn at(folder_path: Vec<String>, file_name: String) -> (r: Comic)
        ensures
            r@ == comic_at(texts(folder_path@), file_name@),
    {
        let name = file_stem(file_name.as_str());
        let escaped = encode(file_name.as_str());
        let path = "/comics/".to_owned().concat(escaped.as_str());
        let series = if folder_path.len() == 0 {
            None
        } else {
            let last = folder_path[folder_path.len() - 1].clone();
            assert(texts(folder_path@).last() == last@);
            Some(last)
        };
        Comic { id: file_name.clone(), name, file_name, path, folder_path, series }
    }

    /// The record of the file at `full_path`, seen from `base_dir`; both are
    /// given component by component.
    pub fn from_path(base_dir: &Vec<String>, full_path: &Vec<String>) -> (r: Option<Comic>)
        ensures
            match r {
                Some(c) => comic_from_path(texts(base_dir@), texts(full_path@)) == Some(c@),
                None => comic_from_path(texts(base_dir@), texts(full_path@)) is None,
            },
    {
        let n: usize = full_path.len();
        if n == 0 {
            return None;
        }
        let ghost base = texts(base_dir@);
        let ghost full = texts(full_path@);
        let last_chars = chars_of(full_path[n - 1].as_str());
        if last_chars.len() == 2 && last_chars[0] == '.' && last_chars[1] == '.' {
            assert(full.last() =~= parent_marker());
            return None;
        }
        assert(full.last() != parent_marker()) by {
            if full.last() == parent_marker() {
                assert(parent_marker().len() == 2);
                assert(parent_marker()[0] == '.');
                assert(parent_marker()[1] == '.');
            }
        }
        let m: usize = base_dir.len();
        if m > n {
            return None;
        }
        let mut i: usize = 0;
        while i < m
            invariant
                i <= m,
                m == base_dir.len(),
                n == full_path.len(),
                m <= n,
                base == texts(base_dir@),
                full == texts(full_path@),
                forall|j: int| 0 <= j < i ==> base[j] == full[j],
            decreases m - i,
        {
            if base_dir[i] != full_path[i] {
                assert(base[i as int] != full[i as int]);
                return None;
            }
            i += 1;
        }
        assert(is_below(base, full));
        let mut folder_path: Vec<String> = Vec::new();
        if m < n {
            let mut k: usize = m;
            while k < n - 1
                invariant
                    m <= k <= n - 1,
                    n == full_path.len(),
                    full == texts(full_path@),
                    folder_path.len() == k - m,
                    forall|j: int| 0 <= j < k - m ==> folder_path@[j]@ == full[m + j],
                decreases n - 1 - k,
            {
                folder_path.push(full_path[k].clone());
                k += 1;
            }
            assert(texts(folder_path@) =~= full.subrange(m as int, n - 1));
        } else {
            assert(texts(folder_path@) =~= seq![]);
        }
        Some(Comic::at(folder_path, full_path[n - 1].clone()))
    }

    /// Whether the query matches this comic, without regard to case.
    pub fn matches_search(&self, query: &str) -> (b: bool)
        ensures
            b == matches_query(self@, query@),
    {
        let q = chars_of(to_lowercase(query).as_str());
        let name = chars_of(to_lowercase(self.name.as_str()).as_str());
        if contains(&name, &q) {
            return true;
        }
        if let Some(series) = &self.series {
            let s = chars_of(to_lowercase(series.as_str()).as_str());
            if contains(&s, &q) {
                return true;
            }
        }
        let mut i: usize = 0;
        while i < self.folder_path.len()
            invariant
                i <= self.folder_path.len(),
                q@ == lowercase(query@),
                forall|j: int|
                    0 <= j < i ==> !occurs_in(q@, lowercase(#[trigger] self@.folder_path[j])),
            decreases self.folder_path.len() - i,
        {
            let folder = chars_of(to_lowercase(self.folder_path[i].as_str()).as_str());
            assert(self@.folder_path[i as int] == self.folder_path@[i as int]@);
            if contains(&folder, &q) {
                return true;
            }
            i += 1;
        }
        false
    }
}

/// The record of the file at `path`, seen from `base_dir`; a path that has
/// none is an invalid path.
pub fn process_comic_file(base_dir: &Vec<String>, path: &Vec<String>) -> (r: Result<
    Comic,
    ComicError,
>)
    ensures
        match r {
            Ok(c) => comic_from_path(texts(base_dir@), texts(path@)) == Some(c@),
            Err(e) => comic_from_path(texts(base_dir@), texts(path@)) is None && e
                == ComicError::InvalidPath,
        },
{
    match Comic::from_path(base_dir, path) {
        Some(c) => Ok(c),
        None => Err(ComicError::InvalidPath),
    }
}

/// The cover of a comic: the bytes of one image of its archive.
#[derive(Debug, PartialEq, Eq)]
pub struct CoverImage {
    pub data: Vec<u8>,
}

impl View for CoverImage {
    type V = Seq<u8>;

    open spec fn view(&self) -> Seq<u8> {
        self.data@
    }
}

impl Clone for CoverImage {
    fn clone(&self) -> (r: Self)
        ensures
            r@ == self@,
    {
        CoverImage { data: self.data.clone() }
    }
}

} // verus!
