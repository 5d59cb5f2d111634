//! The folder tree of the catalog.

use crate::comic::{Comic, ComicView};
use crate::names::{clone_texts, texts};
use vstd::prelude::*;

verus! {

/// A folder of the tree, with the comics that lie directly in it and the
/// folders below it that hold any.
#[derive(Debug, PartialEq, Eq)]
pub struct Folder {
    pub name: String,
    /// The names of the folders above this one, from the root down.
    pub path: Vec<String>,
    pub comics: Vec<Comic>,
    pub subfolders: Vec<Folder>,
}

/// What a `Folder` holds, as mathematical values.
pub struct FolderView {
    pub name: Seq<char>,
    pub path: Seq<Seq<char>>,
    pub comics: Seq<ComicView>,
    pub subfolders: Seq<FolderView>,
}

/// The views of a vector of comics, element by element.
pub open spec fn comic_views(v: Seq<Comic>) -> Seq<ComicView> {
    Seq::new(v.len(), |i: int| v[i]@)
}

/// The view of a folder: its own fields and, below it, the views of its
/// subfolders.
pub open spec fn folder_view(f: Folder) -> FolderView
    decreases f,
{
    FolderView {
        name: f.name@,
        path: texts(f.path@),
        comics: comic_views(f.comics@),
        subfolders: Seq::new(
            f.subfolders@.len(),
            |i: int|
                if 0 <= i < f.subfolders@.len() {
                    folder_view(f.subfolders@[i])
                } else {
                    arbitrary()
                },
        ),
    }
}

impl View for Folder {
    type V = FolderView;

    open spec fn view(&self) -> FolderView {
        folder_view(*self)
    }
}

/// The view of the root folder before anything is put into it.
pub open spec fn root_view() -> FolderView {
    empty_view("root"@, seq![])
}

/// The view of an empty folder.
pub open spec fn empty_view(name: Seq<char>, path: Seq<Seq<char>>) -> FolderView {
    FolderView { name: name, path: path, comics: seq![], subfolders: seq![] }
}

/// A folder is kept in the tree where it holds a comic or a subfolder.
pub open spec fn kept(f: FolderView) -> bool {
    f.comics.len() > 0 || f.subfolders.len() > 0
}

/// The folder with one more comic at the end of its comics.
pub open spec fn with_comic(f: FolderView, comic: ComicView) -> FolderView {
    FolderView { comics: f.comics.push(comic), ..f }
}

/// The folder with one more subfolder at the end of its subfolders.
pub open spec fn with_subfolder(f: FolderView, child: FolderView) -> FolderView {
    FolderView { subfolders: f.subfolders.push(child), ..f }
}

/// A copy of a vector of comics.
pub fn clone_comics(v: &Vec<Comic>) -> (r: Vec<Comic>)
    ensures
        comic_views(r@) == comic_views(v@),
{
    let mut r: Vec<Comic> = Vec::new();
    let mut i: usize = 0;
    while i < v.len()
        invariant
            i <= v.len(),
            r.len() == i,
            forall|j: int| 0 <= j < i ==> r@[j]@ == v@[j]@,
        decreases v.len() - i,
    {
        r.push(v[i].clone());
        i += 1;
    }
    assert(comic_views(r@) =~= comic_views(v@));
    r
}

impl Folder {
    /// The folder that stands for the root of the tree, still empty.
    pub fn root() -> (r: Folder)
        ensures
            r@ == root_view(),
    {
        let r = Folder {
            name: "root".to_owned(),
            path: Vec::new(),
            comics: Vec::new(),
            subfolders: Vec::new(),
        };
        assert(r@.path =~= seq![]);
        assert(r@.comics =~= seq![]);
        assert(r@.subfolders =~= seq![]);
        r
    }

    /// An empty folder `name` below the folders `path`.
    pub fn empty(name: String, path: Vec<String>) -> (r: Folder)
        ensures
            r@ == empty_view(name@, texts(path@)),
    {
        let r = Folder { name, path, comics: Vec::new(), subfolders: Vec::new() };
        assert(r@.comics =~= seq![]);
        assert(r@.subfolders =~= seq![]);
        r
    }

    /// Whether the folder holds a comic or a subfolder.
    pub fn is_kept(&self) -> (b: bool)
        ensures
            b == kept(self@),
    {
        self.comics.len() > 0 || self.subfolders.len() > 0
    }

    /// Adds a comic that lies directly in the folder.
    pub fn add_comic(&mut self, comic: Comic)
        ensures
            final(self)@ == with_comic(old(self)@, comic@),
    {
        self.comics.push(comic);
        assert(self@.comics =~= old(self)@.comics.push(comic@));
        assert(self@.subfolders =~= old(self)@.subfolders);
    }

    /// Adds a folder that lies directly below the folder.
    pub fn add_subfolder(&mut self, child: Folder)
        ensures
            final(self)@ == with_subfolder(old(self)@, child@),
    {
        self.subfolders.push(child);
        assert(self@.subfolders =~= old(self)@.subfolders.push(child@));
    }
}

impl Clone for Folder {
    fn clone(&self) -> (r: Self)
        ensures
            r@ == self@,
        decreases *self,
    {
        let mut subfolders: Vec<Folder> = Vec::new();
        let mut i: usize = 0;
        while i < self.subfolders.len()
            invariant
                i <= self.subfolders.len(),
                subfolders.len() == i,
                forall|j: int| 0 <= j < i ==> subfolders@[j]@ == self.subfolders@[j]@,
            decreases self.subfolders.len() - i,
        {
            let child = self.subfolders[i].clone();
            subfolders.push(child);
            i += 1;
        }
        let r = Folder {
            name: self.name.clone(),
            path: clone_texts(&self.path),
            comics: clone_comics(&self.comics),
            subfolders,
        };
        assert(r@.subfolders =~= self@.subfolders);
        r
    }
}

} // verus!
