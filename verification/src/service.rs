//! The catalog store and what it answers: the list of comics, a search, the
//! folder tree, and the entry that a request identifier stands for.

use crate::catalog::{
    distinct_ids, entry_views, find_entry, lemma_slot_of, lemma_slot_unique, slot_of, Catalog,
    CatalogView, Entry, EntryView,
};
use crate::comic::{matches_query, Comic, ComicView, CoverImage};
use crate::error::ComicError;
use crate::folder::{comic_views, Folder};
use crate::names::{clone_texts, texts};
use crate::percent::{
    decoded, encoded, law_decoding_undoes_encoding, lemma_encoded_has_no_slash, percent_decode,
};
use crate::text::{chars_of, last_index_of, last_position, lemma_last_position};
use vstd::prelude::*;
use vstd::string::StrSliceExecFns;

verus! {

/// The separator between a folder hint and a file name in an identifier.
pub open spec fn separator() -> char {
    '/'
}

/// The part of a request identifier that names the comic: what stands
/// behind its last separator, or all of it.
pub open spec fn key_of(raw: Seq<char>) -> Seq<char> {
    match last_position(raw, separator()) {
        Some(i) => raw.skip(i + 1),
        None => raw,
    }
}

/// The folder hint of a request identifier: what stands before its last
/// separator.
pub open spec fn hint_of(raw: Seq<char>) -> Option<Seq<char>> {
    match last_position(raw, separator()) {
        Some(i) => Some(raw.take(i)),
        None => None,
    }
}

/// The entry that a key stands for: the one that goes by the key as it is
/// or, where there is none, the one that goes by its percent-decoded form.
pub open spec fn lookup(s: Seq<EntryView>, key: Seq<char>) -> Option<int> {
    match slot_of(s, key) {
        Some(i) => Some(i),
        None => match decoded(key) {
            Some(d) => slot_of(s, d),
            None => None,
        },
    }
}

/// The entry that a request identifier stands for.
pub open spec fn resolve(s: Seq<EntryView>, raw: Seq<char>) -> Option<int> {
    lookup(s, key_of(raw))
}

/// Where a comic's file lies below the root.
#[derive(Debug, PartialEq, Eq)]
pub struct FileLocation {
    /// The folders to descend through, from the root.
    pub folder: Vec<String>,
    /// The name of the file in the last of them.
    pub file_name: String,
}

/// What a `FileLocation` holds, as mathematical values.
pub struct FileLocationView {
    pub folder: Seq<Seq<char>>,
    pub file_name: Seq<char>,
}

impl View for FileLocation {
    type V = FileLocationView;

    open spec fn view(&self) -> FileLocationView {
        FileLocationView { folder: texts(self.folder@), file_name: self.file_name@ }
    }
}

/// Where the file of the comic lies that a request identifier stands for.
/// The file name part is percent-decoded first, and must decode; the comic
/// is then resolved from the decoded name.  The folder is the identifier's
/// hint where it has one, and the comic's own folders otherwise; the file
/// name is always the comic's own.
pub open spec fn location_of(s: Seq<EntryView>, raw: Seq<char>) -> Result<
    FileLocationView,
    ComicError,
> {
    match decoded(key_of(raw)) {
        None => Err(ComicError::InvalidPath),
        Some(name) => match resolve(s, name) {
            None => Err(ComicError::ComicNotFound),
            Some(i) => Ok(
                FileLocationView {
                    folder: match hint_of(raw) {
                        Some(hint) => seq![hint],
                        None => s[i].comic.folder_path,
                    },
                    file_name: s[i].comic.file_name,
                },
            ),
        },
    }
}

/// The comics of the entries, in their order.
pub open spec fn all_comics(s: Seq<EntryView>) -> Seq<ComicView> {
    Seq::new(s.len(), |i: int| s[i].comic)
}

/// The comics of the entries that a query matches, in their order.
pub open spec fn matching(s: Seq<EntryView>, query: Seq<char>) -> Seq<ComicView>
    decreases s.len(),
{
    if s.len() == 0 {
        seq![]
    } else if matches_query(s.last().comic, query) {
        matching(s.drop_last(), query).push(s.last().comic)
    } else {
        matching(s.drop_last(), query)
    }
}

/// Splits a request identifier at its last separator into folder hint and
/// key.
pub fn split_id(raw: &str) -> (r: (Option<String>, String))
    ensures
        r.1@ == key_of(raw@),
        match r.0 {
            Some(h) => hint_of(raw@) == Some(h@),
            None => hint_of(raw@) is None,
        },
{
    let chars = chars_of(raw);
    let end: usize = chars.len();
    proof {
        lemma_last_position(raw@, separator());
    }
    match last_index_of(&chars, '/') {
        Some(i) => {
            assert(raw@.subrange(0, i as int) =~= raw@.take(i as int));
            assert(raw@.subrange(i + 1, raw@.len() as int) =~= raw@.skip(i + 1));
            let hint = raw.substring_char(0, i).to_owned();
            let key = raw.substring_char(i + 1, end).to_owned();
            (Some(hint), key)
        },
        None => (None, raw.to_owned()),
    }
}

/// The index of the entry that a key stands for.
pub fn lookup_entry(entries: &Vec<Entry>, key: &String) -> (r: Option<usize>)
    ensures
        match r {
            Some(i) => lookup(entry_views(entries@), key@) == Some(i as int) && i < entries.len(),
            None => lookup(entry_views(entries@), key@) is None,
        },
{
    match find_entry(entries, key) {
        Some(i) => Some(i),
        None => match percent_decode(key.as_str()) {
            Some(d) => find_entry(entries, &d),
            None => None,
        },
    }
}

/// The store of the current catalog.  It holds one catalog at a time, whole:
/// comics, covers and folder tree are read and replaced together.
#[derive(Debug)]
pub struct ComicService {
    catalog: Catalog,
}

impl View for ComicService {
    type V = CatalogView;

    closed spec fn view(&self) -> CatalogView {
        self.catalog@
    }
}

impl ComicService {
    /// A store that holds `catalog`.
    pub fn new(catalog: Catalog) -> (r: ComicService)
        ensures
            r@ == catalog@,
    {
        ComicService { catalog }
    }

    /// Puts `catalog` in the place of the one held, all of it at once.
    pub fn replace(&mut self, catalog: Catalog)
        ensures
            final(self)@ == catalog@,
    {
        self.catalog = catalog;
    }

    /// Takes the outcome of a scan: a catalog replaces the one held, a
    /// failure leaves it as it is.  Says whether the catalog was replaced.
    pub fn apply_scan(&mut self, outcome: Result<Catalog, ComicError>) -> (replaced: bool)
        ensures
            replaced == outcome is Ok,
            match outcome {
                Ok(catalog) => final(self)@ == catalog@,
                Err(_) => final(self)@ == old(self)@,
            },
    {
        match outcome {
            Ok(catalog) => {
                self.catalog = catalog;
                true
            },
            Err(_) => false,
        }
    }

    /// A copy of the catalog held.
    pub fn current_catalog(&self) -> (r: Catalog)
        ensures
            r@ == self@,
    {
        self.catalog.clone()
    }

    /// Every comic of the catalog.
    pub fn get_all_comics(&self) -> (r: Vec<Comic>)
        ensures
            comic_views(r@) == all_comics(self@.entries),
    {
        let entries = self.catalog.entries();
        let mut out: Vec<Comic> = Vec::new();
        let mut i: usize = 0;
        while i < entries.len()
            invariant
                i <= entries.len(),
                out.len() == i,
                forall|j: int| 0 <= j < i ==> out@[j]@ == entries@[j].comic@,
            decreases entries.len() - i,
        {
            out.push(entries[i].comic.clone());
            i += 1;
        }
        assert(comic_views(out@) =~= all_comics(self@.entries));
        out
    }

    /// The comics that the query matches, without regard to case, by name,
    /// series or a folder of their path.
    pub fn search_comics(&self, query: &str) -> (r: Vec<Comic>)
        ensures
            comic_views(r@) == matching(self@.entries, query@),
    {
        let entries = self.catalog.entries();
        let ghost s = self@.entries;
        let mut out: Vec<Comic> = Vec::new();
        let mut i: usize = 0;
        assert(s.take(0) =~= seq![]);
        assert(comic_views(out@) =~= seq![]);
        while i < entries.len()
            invariant
                i <= entries.len(),
                s == entry_views(entries@),
                comic_views(out@) == matching(s.take(i as int), query@),
            decreases entries.len() - i,
        {
            proof {
                let next = s.take(i + 1);
                assert(next.last() == s[i as int]);
                assert(next.drop_last() =~= s.take(i as int));
            }
            let ghost before = comic_views(out@);
            if entries[i].comic.matches_search(query) {
                out.push(entries[i].comic.clone());
                assert(comic_views(out@) =~= before.push(s[i as int].comic));
            }
            i += 1;
        }
        assert(s.take(i as int) =~= s);
        out
    }

    /// The folder tree of the catalog.
    pub fn get_folder_structure(&self) -> (r: Folder)
        ensures
            r@ == self@.root,
    {
        self.catalog.root().clone()
    }

    /// The comic that a request identifier stands for.  What stands before
    /// the identifier's last `/` is left out; the rest is looked up as it
    /// is and then, where that finds nothing, percent-decoded.
    pub fn get_comic(&self, id: &str) -> (r: Option<Comic>)
        ensures
            match r {
                Some(c) => resolve(self@.entries, id@) matches Some(i) && c@
                    == self@.entries[i].comic,
                None => resolve(self@.entries, id@) is None,
            },
    {
        let entries = self.catalog.entries();
        let (_, key) = split_id(id);
        match lookup_entry(entries, &key) {
            Some(i) => Some(entries[i].comic.clone()),
            None => None,
        }
    }

    /// The cover of the comic that a request identifier stands for.  The
    /// identifier is resolved as for the comic itself: what stands before its
    /// last `/` is left out; the rest is looked up as it is and then, where
    /// that finds nothing, percent-decoded.
    pub fn get_cover(&self, id: &str) -> (r: Option<CoverImage>)
        ensures
            match r {
                Some(c) => resolve(self@.entries, id@) matches Some(i) && c@
                    == self@.entries[i].cover,
                None => resolve(self@.entries, id@) is None,
            },
    {
        let entries = self.catalog.entries();
        let (_, key) = split_id(id);
        match lookup_entry(entries, &key) {
            Some(i) => Some(entries[i].cover.clone()),
            None => None,
        }
    }

    /// Where the file lies whose bytes a request identifier asks for.
    pub fn locate_comic(&self, id: &str) -> (r: Result<FileLocation, ComicError>)
        ensures
            match r {
                Ok(location) => location_of(self@.entries, id@) == Ok::<
                    FileLocationView,
                    ComicError,
                >(location@),
                Err(e) => location_of(self@.entries, id@) == Err::<FileLocationView, ComicError>(
                    e,
                ),
            },
    {
        let entries = self.catalog.entries();
        let (hint, key) = split_id(id);
        let name = match percent_decode(key.as_str()) {
            Some(name) => name,
            None => {
                return Err(ComicError::InvalidPath);
            },
        };
        let (_, inner) = split_id(name.as_str());
        let i = match lookup_entry(entries, &inner) {
            Some(i) => i,
            None => {
                return Err(ComicError::ComicNotFound);
            },
        };
        let comic = &entries[i].comic;
        let folder = match hint {
            Some(h) => {
                let mut v: Vec<String> = Vec::new();
                v.push(h);
                assert(texts(v@) =~= seq![h@]);
                v
            },
            None => clone_texts(&comic.folder_path),
        };
        Ok(FileLocation { folder, file_name: comic.file_name.clone() })
    }
}

/// The catalog that a store holds after the outcomes of some scans were
/// applied to it, one after the other.
pub open spec fn held_after(
    initial: CatalogView,
    outcomes: Seq<Result<CatalogView, ComicError>>,
) -> CatalogView
    decreases outcomes.len(),
{
    if outcomes.len() == 0 {
        initial
    } else {
        match outcomes.last() {
            Ok(catalog) => catalog,
            Err(_) => held_after(initial, outcomes.drop_last()),
        }
    }
}

/// The store holds one scan's catalog, whole.  Whatever scans end in
/// whatever order, with success or without, the catalog held is the one that
/// the store started with or the catalog of one of the scans that succeeded,
/// in all its parts: never comics of one scan with covers or folders of
/// another.  Where the last scan failed, it is the catalog held before.
pub proof fn law_store_holds_one_scan(
    initial: CatalogView,
    outcomes: Seq<Result<CatalogView, ComicError>>,
)
    ensures
        held_after(initial, outcomes) == initial || exists|i: int|
            0 <= i < outcomes.len() && #[trigger] outcomes[i] == Ok::<CatalogView, ComicError>(
                held_after(initial, outcomes),
            ),
        outcomes.len() > 0 && outcomes.last() is Err ==> held_after(initial, outcomes)
            == held_after(initial, outcomes.drop_last()),
        outcomes.len() > 0 && outcomes.last() is Ok ==> held_after(initial, outcomes)
            == outcomes.last()->Ok_0,
    decreases outcomes.len(),
{
    if outcomes.len() > 0 {
        let head = outcomes.drop_last();
        law_store_holds_one_scan(initial, head);
        match outcomes.last() {
            Ok(catalog) => {
                assert(outcomes[outcomes.len() - 1] == Ok::<CatalogView, ComicError>(catalog));
            },
            Err(_) => {
                if held_after(initial, head) != initial {
                    let i = choose|i: int|
                        0 <= i < head.len() && #[trigger] head[i] == Ok::<
                            CatalogView,
                            ComicError,
                        >(held_after(initial, head));
                    assert(outcomes[i] == head[i]);
                }
            },
        }
    }
}

/// Every comic is found by its identifier.  Among distinct identifiers a
/// comic is what its own identifier stands for, as a key and, where it holds
/// no `/`, as a request identifier; and the escaped form of its identifier,
/// under which its URL path publishes it, stands for the comic too, unless
/// another comic goes by that escaped form as its very name.
pub proof fn law_comic_is_found_by_its_id(entries: Seq<EntryView>, i: int)
    requires
        distinct_ids(entries),
        0 <= i < entries.len(),
    ensures
        lookup(entries, entries[i].comic.id) == Some(i),
        last_position(entries[i].comic.id, separator()) is None ==> resolve(
            entries,
            entries[i].comic.id,
        ) == Some(i),
        resolve(entries, encoded(entries[i].comic.id)) matches Some(j) && (j == i
            || entries[j].comic.id == encoded(entries[i].comic.id)),
{
    let id = entries[i].comic.id;
    let escaped = encoded(id);
    lemma_slot_unique(entries, id, i);
    lemma_encoded_has_no_slash(id);
    lemma_last_position(escaped, separator());
    law_decoding_undoes_encoding(id);
    lemma_slot_of(entries, escaped);
}

} // verus!
