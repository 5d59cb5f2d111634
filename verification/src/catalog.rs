//! The catalog: what one scan of the tree found, as a single value.

use crate::comic::{Comic, ComicView, CoverImage};
use crate::folder::{root_view, Folder, FolderView};
use vstd::prelude::*;

verus! {

/// A comic together with its cover.
#[derive(Debug, PartialEq, Eq)]
pub struct Entry {
    pub comic: Comic,
    pub cover: CoverImage,
}

/// What an `Entry` holds, as mathematical values.
pub struct EntryView {
    pub comic: ComicView,
    pub cover: Seq<u8>,
}

impl View for Entry {
    type V = EntryView;

    open spec fn view(&self) -> EntryView {
        EntryView { comic: self.comic@, cover: self.cover@ }
    }
}

impl Clone for Entry {
    fn clone(&self) -> (r: Self)
        ensures
            r@ == self@,
    {
        Entry { comic: self.comic.clone(), cover: self.cover.clone() }
    }
}

/// The views of a vector of entries, element by element.
pub open spec fn entry_views(v: Seq<Entry>) -> Seq<EntryView> {
    Seq::new(v.len(), |i: int| v[i]@)
}

/// No two entries go by the same identifier.
pub open spec fn distinct_ids(s: Seq<EntryView>) -> bool {
    forall|i: int, j: int|
        0 <= i < j < s.len() ==> (#[trigger] s[i]).comic.id != (#[trigger] s[j]).comic.id
}

/// Some entry goes by the identifier.
pub open spec fn holds_id(s: Seq<EntryView>, id: Seq<char>) -> bool {
    exists|i: int| 0 <= i < s.len() && (#[trigger] s[i]).comic.id == id
}

/// The index of the entry that goes by the identifier: the last such, which
/// among distinct identifiers is the only one.
pub open spec fn slot_of(s: Seq<EntryView>, id: Seq<char>) -> Option<int>
    decreases s.len(),
{
    if s.len() == 0 {
        None
    } else if s.last().comic.id == id {
        Some(s.len() - 1)
    } else {
        slot_of(s.drop_last(), id)
    }
}

/// What `slot_of` finds: an index that holds the identifier, or nothing
/// where no entry goes by it.
pub proof fn lemma_slot_of(s: Seq<EntryView>, id: Seq<char>)
    ensures
        match slot_of(s, id) {
            Some(i) => 0 <= i < s.len() && s[i].comic.id == id,
            None => !holds_id(s, id),
        },
        slot_of(s, id) is Some <==> holds_id(s, id),
    decreases s.len(),
{
    if s.len() > 0 && s.last().comic.id != id {
        let head = s.drop_last();
        lemma_slot_of(head, id);
        match slot_of(head, id) {
            Some(i) => {
                assert(s[i] == head[i]);
            },
            None => {
                assert forall|j: int| 0 <= j < s.len() implies (#[trigger] s[j]).comic.id
                    != id by {
                    if j < head.len() {
                        assert(head[j] == s[j]);
                    }
                }
            },
        }
    }
}

/// Among distinct identifiers, an index that holds the identifier is the
/// one that `slot_of` finds.
pub proof fn lemma_slot_unique(s: Seq<EntryView>, id: Seq<char>, i: int)
    requires
        distinct_ids(s),
        0 <= i < s.len(),
        s[i].comic.id == id,
    ensures
        slot_of(s, id) == Some(i),
{
    lemma_slot_of(s, id);
}

/// The entries after `e` was put among them: in the place of the entry that
/// went by its identifier, or at the end where there was none.
pub open spec fn put(s: Seq<EntryView>, e: EntryView) -> Seq<EntryView> {
    match slot_of(s, e.comic.id) {
        Some(i) => s.update(i, e),
        None => s.push(e),
    }
}

/// Putting an entry keeps the identifiers distinct, makes its identifier
/// held, and leaves every other identifier held or not as it was.
pub proof fn lemma_put(s: Seq<EntryView>, e: EntryView)
    requires
        distinct_ids(s),
    ensures
        distinct_ids(put(s, e)),
        slot_of(put(s, e), e.comic.id) is Some,
        put(s, e)[slot_of(put(s, e), e.comic.id)->0] == e,
        forall|id: Seq<char>| id != e.comic.id ==> (holds_id(put(s, e), id) <==> holds_id(s, id)),
        forall|id: Seq<char>|
            id != e.comic.id && holds_id(s, id) ==> put(s, e)[slot_of(put(s, e), id)->0]
                == s[slot_of(s, id)->0],
{
    let t = put(s, e);
    lemma_slot_of(s, e.comic.id);
    match slot_of(s, e.comic.id) {
        Some(i) => {
            assert(t[i] == e);
            assert(distinct_ids(t));
            lemma_slot_unique(t, e.comic.id, i);
        },
        None => {
            assert(t[s.len() as int] == e);
            assert forall|a: int, b: int| 0 <= a < b < t.len() implies (#[trigger] t[a]).comic.id
                != (#[trigger] t[b]).comic.id by {
                if b < s.len() {
                    assert(t[a] == s[a] && t[b] == s[b]);
                } else {
                    assert(t[a] == s[a]);
                }
            }
            lemma_slot_unique(t, e.comic.id, s.len() as int);
        },
    }
    assert forall|id: Seq<char>| id != e.comic.id implies (holds_id(t, id) <==> holds_id(
        s,
        id,
    )) by {
        if holds_id(s, id) {
            let k = choose|k: int| 0 <= k < s.len() && (#[trigger] s[k]).comic.id == id;
            assert(t[k] == s[k]);
        }
        if holds_id(t, id) {
            let k = choose|k: int| 0 <= k < t.len() && (#[trigger] t[k]).comic.id == id;
            assert(k < s.len());
            assert(t[k] == s[k]);
        }
    }
    assert forall|id: Seq<char>| id != e.comic.id && holds_id(s, id) implies t[slot_of(
        t,
        id,
    )->0] == s[slot_of(s, id)->0] by {
        lemma_slot_of(s, id);
        let k = slot_of(s, id)->0;
        assert(t[k] == s[k]);
        lemma_slot_unique(t, id, k);
    }
}

/// The comics of the entries, keyed by identifier.
pub open spec fn comics_map(s: Seq<EntryView>) -> Map<Seq<char>, ComicView> {
    Map::new(|id: Seq<char>| holds_id(s, id), |id: Seq<char>| s[slot_of(s, id)->0].comic)
}

/// The covers of the entries, keyed by identifier.
pub open spec fn covers_map(s: Seq<EntryView>) -> Map<Seq<char>, Seq<u8>> {
    Map::new(|id: Seq<char>| holds_id(s, id), |id: Seq<char>| s[slot_of(s, id)->0].cover)
}

/// The catalog of one scan: its comics with their covers, and the folder
/// tree in which they were found.
#[derive(Debug, PartialEq, Eq)]
pub struct Catalog {
    entries: Vec<Entry>,
    root: Folder,
}

/// What a `Catalog` holds, as mathematical values.
pub struct CatalogView {
    pub entries: Seq<EntryView>,
    pub root: FolderView,
}

impl CatalogView {
    /// The comics of the catalog, keyed by identifier.
    pub open spec fn comics(self) -> Map<Seq<char>, ComicView> {
        comics_map(self.entries)
    }

    /// The covers of the catalog, keyed by identifier.
    pub open spec fn covers(self) -> Map<Seq<char>, Seq<u8>> {
        covers_map(self.entries)
    }

    /// The catalog is well formed: no two of its entries share an
    /// identifier.
    pub open spec fn wf(self) -> bool {
        distinct_ids(self.entries)
    }
}

impl View for Catalog {
    type V = CatalogView;

    closed spec fn view(&self) -> CatalogView {
        CatalogView { entries: entry_views(self.entries@), root: self.root@ }
    }
}

/// A copy of a vector of entries.
pub fn clone_entries(v: &Vec<Entry>) -> (r: Vec<Entry>)
    ensures
        entry_views(r@) == entry_views(v@),
{
    let mut r: Vec<Entry> = Vec::new();
    let mut i: usize = 0;
    while i < v.len()
        invariant
            i <= v.len(),
            r.len() == i,
            forall|j: int| 0 <= j < i ==> r@[j]@ == v@[j]@,
        decreases v.len() - i,
    {
        r.push(v[i].clone());
        i += 1;
    }
    assert(entry_views(r@) =~= entry_views(v@));
    r
}

/// The index of the entry of `entries` that goes by `id`.
pub fn find_entry(entries: &Vec<Entry>, id: &String) -> (r: Option<usize>)
    ensures
        match r {
            Some(i) => slot_of(entry_views(entries@), id@) == Some(i as int) && i < entries.len(),
            None => slot_of(entry_views(entries@), id@) is None,
        },
{
    let ghost s = entry_views(entries@);
    let mut i: usize = entries.len();
    assert(s.take(i as int) =~= s);
    while i > 0
        invariant
            i <= entries.len(),
            s == entry_views(entries@),
            slot_of(s, id@) == slot_of(s.take(i as int), id@),
        decreases i,
    {
        proof {
            let head = s.take(i as int);
            assert(head.last() == s[i - 1]);
            assert(head.drop_last() =~= s.take(i - 1));
        }
        if entries[i - 1].comic.id == *id {
            return Some(i - 1);
        }
        i -= 1;
    }
    assert(s.take(0).len() == 0);
    None
}

/// Puts `entry` among `entries`: in the place of the entry that went by its
/// identifier, or at the end.
pub fn put_entry(entries: &mut Vec<Entry>, entry: Entry)
    ensures
        entry_views(final(entries)@) == put(entry_views(old(entries)@), entry@),
{
    match find_entry(entries, &entry.comic.id) {
        Some(i) => {
            entries.set(i, entry);
            assert(entry_views(entries@) =~= put(entry_views(old(entries)@), entry@));
        },
        None => {
            entries.push(entry);
            assert(entry_views(entries@) =~= put(entry_views(old(entries)@), entry@));
        },
    }
}

impl Catalog {
    /// The catalog of a tree without comics.
    pub fn empty() -> (r: Catalog)
        ensures
            r@ == (CatalogView { entries: seq![], root: root_view() }),
            r@.wf(),
    {
        let r = Catalog { entries: Vec::new(), root: Folder::root() };
        assert(r@.entries =~= seq![]);
        r
    }

    /// The catalog of the given entries and tree.
    pub(crate) fn assemble(entries: Vec<Entry>, root: Folder) -> (r: Catalog)
        ensures
            r@ == (CatalogView { entries: entry_views(entries@), root: root@ }),
    {
        Catalog { entries, root }
    }

    /// The entries of the catalog.
    pub fn entries(&self) -> (r: &Vec<Entry>)
        ensures
            entry_views(r@) == self@.entries,
    {
        &self.entries
    }

    /// The root of the catalog's folder tree.
    pub fn root(&self) -> (r: &Folder)
        ensures
            r@ == self@.root,
    {
        &self.root
    }

    /// The number of comics in the catalog.
    pub fn len(&self) -> (n: usize)
        ensures
            n == self@.entries.len(),
    {
        self.entries.len()
    }
}

impl Clone for Catalog {
    fn clone(&self) -> (r: Self)
        ensures
            r@ == self@,
    {
        Catalog { entries: clone_entries(&self.entries), root: self.root.clone() }
    }
}

} // verus!
