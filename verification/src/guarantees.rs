//! What holds of every catalog that a scan yields: which files are in it,
//! which are not, and what shape its folder tree has.

use crate::catalog::{
    distinct_ids, holds_id, lemma_put, lemma_slot_of, put, slot_of, CatalogView, EntryView,
};
use crate::comic::comic_at;
use crate::folder::{empty_view, kept, root_view, with_comic, with_subfolder, FolderView};
use crate::names::is_comic_name;
use crate::percent::decoded;
use crate::scanner::cover_in;
use crate::service::{lookup, resolve, separator};
use crate::text::last_position;
use crate::tree::{scan_entries, scan_tree, FsEntry, FsNode, Scanned};
use vstd::prelude::*;

verus! {

/// The entry is a comic with a cover: a file whose name is a comic's and
/// whose bytes can be read and hold an image.
pub open spec fn is_comic_with_cover(entry: FsEntry) -> bool {
    entry.node matches FsNode::File { bytes } && is_comic_name(entry.name) && cover_in(bytes) is Some
}

/// Among the entries from `from` on, or in a directory below them, lies a
/// comic with a cover that is named `name`.
pub open spec fn tree_has_comic(listing: Seq<FsEntry>, from: nat, name: Seq<char>) -> bool
    decreases listing, listing.len() - from,
{
    if from >= listing.len() {
        false
    } else {
        let entry = listing[from as int];
        let here = match entry.node {
            FsNode::Dir { listing: Some(below) } => tree_has_comic(below, 0, name),
            FsNode::Dir { listing: None } => false,
            FsNode::File { .. } => entry.name == name && is_comic_with_cover(entry),
        };
        here || tree_has_comic(listing, from + 1, name)
    }
}

/// The folder, or a folder below it, holds a comic that goes by `id`.
pub open spec fn folder_has_comic(folder: FolderView, id: Seq<char>) -> bool
    decreases folder,
{
    ||| exists|i: int| 0 <= i < folder.comics.len() && (#[trigger] folder.comics[i]).id == id
    ||| exists|j: int|
        0 <= j < folder.subfolders.len() && folder_has_comic(#[trigger] folder.subfolders[j], id)
}

/// No folder below this one is empty: each holds a comic or a subfolder, and
/// so on down the tree.
pub open spec fn has_no_dead_branch(folder: FolderView) -> bool
    decreases folder,
{
    forall|j: int|
        0 <= j < folder.subfolders.len() ==> kept(#[trigger] folder.subfolders[j])
            && has_no_dead_branch(folder.subfolders[j])
}

/// The comics map and the covers map of a catalog have the same keys.
pub proof fn law_comics_and_covers_share_keys(catalog: CatalogView)
    ensures
        catalog.comics().dom() == catalog.covers().dom(),
        forall|id: Seq<char>| #[trigger]
            catalog.comics().contains_key(id) ==> lookup(catalog.entries, id) is Some,
{
    assert(catalog.comics().dom() =~= catalog.covers().dom());
    assert forall|id: Seq<char>| #[trigger] catalog.comics().contains_key(id) implies lookup(
        catalog.entries,
        id,
    ) is Some by {
        lemma_slot_of(catalog.entries, id);
    }
}

/// What a scan of some entries does to the index: it keeps the identifiers
/// distinct, and an identifier is held afterwards exactly where it was held
/// before or is the name of a comic with a cover among the entries.
proof fn lemma_index_after(
    listing: Seq<FsEntry>,
    from: nat,
    location: Seq<Seq<char>>,
    folder: FolderView,
    index: Seq<EntryView>,
    id: Seq<char>,
)
    requires
        distinct_ids(index),
        scan_entries(listing, from, location, folder, index) is Some,
    ensures
        scan_entries(listing, from, location, folder, index) matches Some(scanned)
            && distinct_ids(scanned.index) && (holds_id(scanned.index, id) <==> holds_id(
            index,
            id,
        ) || tree_has_comic(listing, from, id)),
    decreases listing, listing.len() - from,
{
    if from < listing.len() {
        let entry = listing[from as int];
        match entry.node {
            FsNode::Dir { listing: None } => {},
            FsNode::Dir { listing: Some(below) } => {
                let inner = scan_entries(
                    below,
                    0,
                    location.push(entry.name),
                    empty_view(entry.name, location),
                    index,
                );
                lemma_index_after(
                    below,
                    0,
                    location.push(entry.name),
                    empty_view(entry.name, location),
                    index,
                    id,
                );
                let child = inner->0.folder;
                let index_below = inner->0.index;
                let next = if kept(child) {
                    with_subfolder(folder, child)
                } else {
                    folder
                };
                lemma_index_after(listing, from + 1, location, next, index_below, id);
            },
            FsNode::File { bytes } => {
                if is_comic_name(entry.name) && cover_in(bytes) is Some {
                    let comic = comic_at(location, entry.name);
                    let e = EntryView { comic: comic, cover: cover_in(bytes)->0 };
                    lemma_put(index, e);
                    lemma_slot_of(put(index, e), e.comic.id);
                    lemma_index_after(
                        listing,
                        from + 1,
                        location,
                        with_comic(folder, comic),
                        put(index, e),
                        id,
                    );
                } else {
                    lemma_index_after(listing, from + 1, location, folder, index, id);
                }
            },
        }
    }
}

/// Every comic with a cover is catalogued, once.  After a scan of a tree no
/// two entries of the catalog share an identifier, and an identifier is in
/// the catalog exactly where it is the name of a file of the tree whose name
/// is a comic's and whose bytes hold a cover.  For such a name the cover is
/// found under it.
pub proof fn law_catalog_holds_the_comics_with_covers(root: Seq<FsEntry>, id: Seq<char>)
    requires
        scan_tree(Some(root)) is Ok,
    ensures
        scan_tree(Some(root))->Ok_0.wf(),
        scan_tree(Some(root))->Ok_0.comics().contains_key(id) <==> tree_has_comic(root, 0, id),
        scan_tree(Some(root))->Ok_0.covers().contains_key(id) <==> tree_has_comic(root, 0, id),
        tree_has_comic(root, 0, id) ==> lookup(scan_tree(Some(root))->Ok_0.entries, id) is Some,
{
    let empty: Seq<EntryView> = seq![];
    lemma_index_after(root, 0, seq![], root_view(), empty, id);
    let catalog = scan_tree(Some(root))->Ok_0;
    lemma_slot_of(catalog.entries, id);
    assert(!holds_id(empty, id));
}

/// What a scan of some entries does to the folder: a comic is in it or
/// below it afterwards exactly where it was before or is the name of a comic
/// with a cover among the entries; and no empty folder is attached.
proof fn lemma_folder_after(
    listing: Seq<FsEntry>,
    from: nat,
    location: Seq<Seq<char>>,
    folder: FolderView,
    index: Seq<EntryView>,
    id: Seq<char>,
)
    requires
        scan_entries(listing, from, location, folder, index) is Some,
    ensures
        scan_entries(listing, from, location, folder, index) matches Some(scanned) && (
        folder_has_comic(scanned.folder, id) <==> folder_has_comic(folder, id) || tree_has_comic(
            listing,
            from,
            id,
        )) && (has_no_dead_branch(folder) ==> has_no_dead_branch(scanned.folder)),
    decreases listing, listing.len() - from,
{
    if from < listing.len() {
        let entry = listing[from as int];
        match entry.node {
            FsNode::Dir { listing: None } => {},
            FsNode::Dir { listing: Some(below) } => {
                let fresh = empty_view(entry.name, location);
                let inner = scan_entries(below, 0, location.push(entry.name), fresh, index);
                lemma_folder_after(below, 0, location.push(entry.name), fresh, index, id);
                let child = inner->0.folder;
                let index_below = inner->0.index;
                assert(!folder_has_comic(fresh, id));
                assert(has_no_dead_branch(fresh));
                let next = if kept(child) {
                    with_subfolder(folder, child)
                } else {
                    folder
                };
                lemma_attached(folder, child, id);
                lemma_folder_after(listing, from + 1, location, next, index_below, id);
            },
            FsNode::File { bytes } => {
                if is_comic_name(entry.name) && cover_in(bytes) is Some {
                    let comic = comic_at(location, entry.name);
                    let e = EntryView { comic: comic, cover: cover_in(bytes)->0 };
                    lemma_comic_added(folder, comic, id);
                    lemma_folder_after(
                        listing,
                        from + 1,
                        location,
                        with_comic(folder, comic),
                        put(index, e),
                        id,
                    );
                } else {
                    lemma_folder_after(listing, from + 1, location, folder, index, id);
                }
            },
        }
    }
}

/// A folder with one more comic holds what it held and that comic.
proof fn lemma_comic_added(folder: FolderView, comic: crate::comic::ComicView, id: Seq<char>)
    ensures
        folder_has_comic(with_comic(folder, comic), id) <==> folder_has_comic(folder, id)
            || comic.id == id,
        has_no_dead_branch(folder) ==> has_no_dead_branch(with_comic(folder, comic)),
{
    let after = with_comic(folder, comic);
    assert(after.subfolders == folder.subfolders);
    let in_comics = |f: FolderView|
        exists|i: int| 0 <= i < f.comics.len() && (#[trigger] f.comics[i]).id == id;
    let in_subfolders = |f: FolderView|
        exists|j: int|
            0 <= j < f.subfolders.len() && folder_has_comic(#[trigger] f.subfolders[j], id);
    assert(folder_has_comic(folder, id) <==> in_comics(folder) || in_subfolders(folder));
    assert(folder_has_comic(after, id) <==> in_comics(after) || in_subfolders(after));
    assert(in_subfolders(after) <==> in_subfolders(folder)) by {
        if in_subfolders(folder) {
            let j = choose|j: int|
                0 <= j < folder.subfolders.len() && folder_has_comic(
                    #[trigger] folder.subfolders[j],
                    id,
                );
            assert(folder_has_comic(after.subfolders[j], id));
        }
        if in_subfolders(after) {
            let j = choose|j: int|
                0 <= j < after.subfolders.len() && folder_has_comic(
                    #[trigger] after.subfolders[j],
                    id,
                );
            assert(folder_has_comic(folder.subfolders[j], id));
        }
    }
    assert(in_comics(after) <==> in_comics(folder) || comic.id == id) by {
        if in_comics(folder) {
            let i = choose|i: int|
                0 <= i < folder.comics.len() && (#[trigger] folder.comics[i]).id == id;
            assert(after.comics[i] == folder.comics[i]);
        }
        if comic.id == id {
            assert(after.comics[folder.comics.len() as int] == comic);
        }
        if in_comics(after) {
            let i = choose|i: int|
                0 <= i < after.comics.len() && (#[trigger] after.comics[i]).id == id;
            if i < folder.comics.len() {
                assert(after.comics[i] == folder.comics[i]);
            }
        }
    }
}

/// A folder to which `child` was attached, if it holds anything, holds what
/// it held and what `child` holds.
proof fn lemma_attached(folder: FolderView, child: FolderView, id: Seq<char>)
    ensures
        folder_has_comic(
            if kept(child) {
                with_subfolder(folder, child)
            } else {
                folder
            },
            id,
        ) <==> folder_has_comic(folder, id) || folder_has_comic(child, id),
        has_no_dead_branch(folder) && has_no_dead_branch(child) ==> has_no_dead_branch(
            if kept(child) {
                with_subfolder(folder, child)
            } else {
                folder
            },
        ),
{
    if kept(child) {
        let after = with_subfolder(folder, child);
        assert(after.subfolders[folder.subfolders.len() as int] == child);
        if folder_has_comic(folder, id) {
            if exists|j: int|
                0 <= j < folder.subfolders.len() && folder_has_comic(
                    #[trigger] folder.subfolders[j],
                    id,
                ) {
                let j = choose|j: int|
                    0 <= j < folder.subfolders.len() && folder_has_comic(
                        #[trigger] folder.subfolders[j],
                        id,
                    );
                assert(after.subfolders[j] == folder.subfolders[j]);
            }
        }
        if folder_has_comic(after, id) {
            if exists|j: int|
                0 <= j < after.subfolders.len() && folder_has_comic(
                    #[trigger] after.subfolders[j],
                    id,
                ) {
                let j = choose|j: int|
                    0 <= j < after.subfolders.len() && folder_has_comic(
                        #[trigger] after.subfolders[j],
                        id,
                    );
                if j < folder.subfolders.len() {
                    assert(after.subfolders[j] == folder.subfolders[j]);
                }
            }
        }
        if has_no_dead_branch(folder) && has_no_dead_branch(child) {
            assert forall|j: int| 0 <= j < after.subfolders.len() implies kept(
                #[trigger] after.subfolders[j],
            ) && has_no_dead_branch(after.subfolders[j]) by {
                if j < folder.subfolders.len() {
                    assert(after.subfolders[j] == folder.subfolders[j]);
                }
            }
        }
    } else {
        assert(!folder_has_comic(child, id));
    }
}

/// The folder tree shows the comics with covers and nothing else.  After a
/// scan of a tree, a comic is in the folder tree exactly where it is the
/// name of a file of the tree whose name is a comic's and whose bytes hold a
/// cover.  A file without a cover, one that cannot be read and one whose
/// archive is corrupt are in neither the tree nor the catalog, unless a file
/// of the same name elsewhere has a cover.
pub proof fn law_folder_tree_shows_the_comics_with_covers(root: Seq<FsEntry>, id: Seq<char>)
    requires
        scan_tree(Some(root)) is Ok,
    ensures
        folder_has_comic(scan_tree(Some(root))->Ok_0.root, id) <==> tree_has_comic(root, 0, id),
        !tree_has_comic(root, 0, id) ==> !scan_tree(Some(root))->Ok_0.comics().contains_key(id)
            && !scan_tree(Some(root))->Ok_0.covers().contains_key(id) && !folder_has_comic(
            scan_tree(Some(root))->Ok_0.root,
            id,
        ),
        !tree_has_comic(root, 0, id) && (decoded(id) matches Some(plain) ==> !tree_has_comic(
            root,
            0,
            plain,
        )) ==> lookup(scan_tree(Some(root))->Ok_0.entries, id) is None,
{
    let empty: Seq<EntryView> = seq![];
    lemma_folder_after(root, 0, seq![], root_view(), empty, id);
    law_catalog_holds_the_comics_with_covers(root, id);
    assert(!folder_has_comic(root_view(), id));
    lemma_slot_of(scan_tree(Some(root))->Ok_0.entries, id);
    match decoded(id) {
        Some(plain) => {
            law_catalog_holds_the_comics_with_covers(root, plain);
            lemma_slot_of(scan_tree(Some(root))->Ok_0.entries, plain);
        },
        None => {},
    }
}

/// The folder tree has no dead branch: after a scan, every folder below the
/// root holds a comic or a folder that does.
pub proof fn law_folder_tree_is_pruned(root: Seq<FsEntry>)
    requires
        scan_tree(Some(root)) is Ok,
    ensures
        has_no_dead_branch(scan_tree(Some(root))->Ok_0.root),
{
    let empty: Seq<EntryView> = seq![];
    let id: Seq<char> = seq![];
    lemma_folder_after(root, 0, seq![], root_view(), empty, id);
    assert(has_no_dead_branch(root_view()));
}

/// Every entry from `from` on is a file that is no comic with a cover.
pub open spec fn is_barren(listing: Seq<FsEntry>, from: nat) -> bool {
    forall|i: int|
        from <= i < listing.len() ==> (#[trigger] listing[i]).node is File && !is_comic_with_cover(
            listing[i],
        )
}

/// A scan of files none of which is a comic with a cover changes nothing.
pub proof fn lemma_barren_entries(
    listing: Seq<FsEntry>,
    from: nat,
    location: Seq<Seq<char>>,
    folder: FolderView,
    index: Seq<EntryView>,
)
    requires
        is_barren(listing, from),
    ensures
        scan_entries(listing, from, location, folder, index) == Some(
            Scanned { folder: folder, index: index },
        ),
    decreases listing.len() - from,
{
    if from < listing.len() {
        assert(listing[from as int].node is File);
        lemma_barren_entries(listing, from + 1, location, folder, index);
    }
}

/// A directory that holds only files, none of them a comic with a cover,
/// leaves no folder in the tree: the scan goes on behind it with the folder
/// and the index as they were.
pub proof fn law_barren_directory_leaves_no_folder(
    listing: Seq<FsEntry>,
    at: nat,
    location: Seq<Seq<char>>,
    folder: FolderView,
    index: Seq<EntryView>,
)
    requires
        at < listing.len(),
        listing[at as int].node is Dir,
        listing[at as int].node->listing is Some,
        is_barren(listing[at as int].node->listing->0, 0),
    ensures
        scan_entries(listing, at, location, folder, index) == scan_entries(
            listing,
            at + 1,
            location,
            folder,
            index,
        ),
{
    let entry = listing[at as int];
    lemma_barren_entries(
        entry.node->listing->0,
        0,
        location.push(entry.name),
        empty_view(entry.name, location),
        index,
    );
}

/// The number of comics with a cover named `name` among the entries from
/// `from` on and in the directories below them.
pub open spec fn comics_named(listing: Seq<FsEntry>, from: nat, name: Seq<char>) -> nat
    decreases listing, listing.len() - from,
{
    if from >= listing.len() {
        0
    } else {
        let entry = listing[from as int];
        let here: nat = match entry.node {
            FsNode::Dir { listing: Some(below) } => comics_named(below, 0, name),
            FsNode::Dir { listing: None } => 0,
            FsNode::File { .. } => if entry.name == name && is_comic_with_cover(entry) {
                1
            } else {
                0
            },
        };
        here + comics_named(listing, from + 1, name)
    }
}

/// The number of comics with a cover among the entries from `from` on and in
/// the directories below them.
pub open spec fn comics_in(listing: Seq<FsEntry>, from: nat) -> nat
    decreases listing, listing.len() - from,
{
    if from >= listing.len() {
        0
    } else {
        let entry = listing[from as int];
        let here: nat = match entry.node {
            FsNode::Dir { listing: Some(below) } => comics_in(below, 0),
            FsNode::Dir { listing: None } => 0,
            FsNode::File { .. } => if is_comic_with_cover(entry) {
                1
            } else {
                0
            },
        };
        here + comics_in(listing, from + 1)
    }
}

/// No two comics with a cover in the tree have the same name.
pub open spec fn comic_names_are_unique(root: Seq<FsEntry>) -> bool {
    forall|name: Seq<char>| comics_named(root, 0, name) <= 1
}

/// A comic with a cover named `name` lies among the entries exactly where
/// their number is not zero.
proof fn lemma_named_iff_has(listing: Seq<FsEntry>, from: nat, name: Seq<char>)
    ensures
        tree_has_comic(listing, from, name) <==> comics_named(listing, from, name) > 0,
    decreases listing, listing.len() - from,
{
    if from < listing.len() {
        match listing[from as int].node {
            FsNode::Dir { listing: Some(below) } => {
                lemma_named_iff_has(below, 0, name);
            },
            _ => {},
        }
        lemma_named_iff_has(listing, from + 1, name);
    }
}

/// Whether an identifier is held, as a number.
spec fn held(index: Seq<EntryView>, id: Seq<char>) -> nat {
    if holds_id(index, id) {
        1
    } else {
        0
    }
}

/// Where no name among the entries is that of two comics with a cover, nor
/// of one and of an entry that the index holds already, the scan adds one
/// entry to the index for each comic with a cover.
proof fn lemma_index_grows(
    listing: Seq<FsEntry>,
    from: nat,
    location: Seq<Seq<char>>,
    folder: FolderView,
    index: Seq<EntryView>,
)
    requires
        distinct_ids(index),
        scan_entries(listing, from, location, folder, index) is Some,
        forall|name: Seq<char>| #[trigger]
            comics_named(listing, from, name) + held(index, name) <= 1,
    ensures
        scan_entries(listing, from, location, folder, index) matches Some(scanned)
            && scanned.index.len() == index.len() + comics_in(listing, from),
    decreases listing, listing.len() - from,
{
    if from < listing.len() {
        let entry = listing[from as int];
        match entry.node {
            FsNode::Dir { listing: None } => {},
            FsNode::Dir { listing: Some(below) } => {
                let fresh = empty_view(entry.name, location);
                let inner = scan_entries(below, 0, location.push(entry.name), fresh, index);
                assert forall|name: Seq<char>| #[trigger]
                    comics_named(below, 0, name) + held(index, name) <= 1 by {
                    assert(comics_named(listing, from, name) + held(index, name) <= 1);
                }
                lemma_index_grows(below, 0, location.push(entry.name), fresh, index);
                let child = inner->0.folder;
                let index_below = inner->0.index;
                let next = if kept(child) {
                    with_subfolder(folder, child)
                } else {
                    folder
                };
                assert forall|name: Seq<char>| #[trigger]
                    comics_named(listing, from + 1, name) + held(index_below, name) <= 1 by {
                    assert(comics_named(listing, from, name) + held(index, name) <= 1);
                    lemma_index_after(
                        below,
                        0,
                        location.push(entry.name),
                        fresh,
                        index,
                        name,
                    );
                    lemma_named_iff_has(below, 0, name);
                }
                let id: Seq<char> = seq![];
                lemma_index_after(below, 0, location.push(entry.name), fresh, index, id);
                lemma_index_grows(listing, from + 1, location, next, index_below);
            },
            FsNode::File { bytes } => {
                if is_comic_name(entry.name) && cover_in(bytes) is Some {
                    let comic = comic_at(location, entry.name);
                    let e = EntryView { comic: comic, cover: cover_in(bytes)->0 };
                    assert(comics_named(listing, from, entry.name) + held(index, entry.name)
                        <= 1);
                    assert(!holds_id(index, entry.name));
                    lemma_slot_of(index, entry.name);
                    assert(put(index, e) == index.push(e));
                    lemma_put(index, e);
                    assert forall|name: Seq<char>| #[trigger]
                        comics_named(listing, from + 1, name) + held(put(index, e), name)
                            <= 1 by {
                        assert(comics_named(listing, from, name) + held(index, name) <= 1);
                        lemma_slot_of(put(index, e), e.comic.id);
                    }
                    lemma_index_grows(
                        listing,
                        from + 1,
                        location,
                        with_comic(folder, comic),
                        put(index, e),
                    );
                } else {
                    assert forall|name: Seq<char>| #[trigger]
                        comics_named(listing, from + 1, name) + held(index, name) <= 1 by {
                        assert(comics_named(listing, from, name) + held(index, name) <= 1);
                    }
                    lemma_index_grows(listing, from + 1, location, folder, index);
                }
            },
        }
    }
}

/// One entry for each comic with a cover.  Where no two comics with a cover
/// in the tree have the same name, the catalog of the tree has as many
/// entries as the tree has comics with a cover.
pub proof fn law_one_entry_for_each_comic_with_a_cover(root: Seq<FsEntry>)
    requires
        scan_tree(Some(root)) is Ok,
        comic_names_are_unique(root),
    ensures
        scan_tree(Some(root))->Ok_0.entries.len() == comics_in(root, 0),
        scan_tree(Some(root))->Ok_0.wf(),
{
    let empty: Seq<EntryView> = seq![];
    assert forall|name: Seq<char>| #[trigger]
        comics_named(root, 0, name) + held(empty, name) <= 1 by {
        assert(!holds_id(empty, name));
    }
    lemma_index_grows(root, 0, seq![], root_view(), empty);
    let id: Seq<char> = seq![];
    lemma_index_after(root, 0, seq![], root_view(), empty, id);
}

/// The folder and everything below it is in its place, given that the
/// folder's own directory lies at `location`: each comic is the record of a
/// file at `location`, each subfolder names `location` as its path, and so
/// on down the tree.
pub open spec fn is_in_place(folder: FolderView, location: Seq<Seq<char>>) -> bool
    decreases folder,
{
    &&& forall|i: int|
        0 <= i < folder.comics.len() ==> #[trigger] folder.comics[i] == comic_at(
            location,
            folder.comics[i].file_name,
        )
    &&& forall|j: int|
        0 <= j < folder.subfolders.len() ==> (#[trigger] folder.subfolders[j]).path == location
            && is_in_place(folder.subfolders[j], location.push(folder.subfolders[j].name))
}

/// A scan of some entries keeps a folder in its place.
proof fn lemma_placed_after(
    listing: Seq<FsEntry>,
    from: nat,
    location: Seq<Seq<char>>,
    folder: FolderView,
    index: Seq<EntryView>,
)
    requires
        scan_entries(listing, from, location, folder, index) is Some,
        is_in_place(folder, location),
    ensures
        scan_entries(listing, from, location, folder, index) matches Some(scanned) && is_in_place(
            scanned.folder,
            location,
        ) && scanned.folder.name == folder.name && scanned.folder.path == folder.path,
    decreases listing, listing.len() - from,
{
    if from < listing.len() {
        let entry = listing[from as int];
        match entry.node {
            FsNode::Dir { listing: None } => {},
            FsNode::Dir { listing: Some(below) } => {
                let fresh = empty_view(entry.name, location);
                let inner = scan_entries(below, 0, location.push(entry.name), fresh, index);
                assert(is_in_place(fresh, location.push(entry.name)));
                lemma_placed_after(below, 0, location.push(entry.name), fresh, index);
                let child = inner->0.folder;
                let next = if kept(child) {
                    with_subfolder(folder, child)
                } else {
                    folder
                };
                assert(is_in_place(next, location)) by {
                    if kept(child) {
                        assert forall|j: int| 0 <= j < next.subfolders.len() implies (
                        #[trigger] next.subfolders[j]).path == location && is_in_place(
                            next.subfolders[j],
                            location.push(next.subfolders[j].name),
                        ) by {
                            if j < folder.subfolders.len() {
                                assert(next.subfolders[j] == folder.subfolders[j]);
                            }
                        }
                    }
                }
                lemma_placed_after(listing, from + 1, location, next, inner->0.index);
            },
            FsNode::File { bytes } => {
                if is_comic_name(entry.name) && cover_in(bytes) is Some {
                    let comic = comic_at(location, entry.name);
                    let e = EntryView { comic: comic, cover: cover_in(bytes)->0 };
                    let next = with_comic(folder, comic);
                    assert(is_in_place(next, location)) by {
                        assert forall|i: int| 0 <= i < next.comics.len() implies #[trigger] next.comics[i]
                            == comic_at(location, next.comics[i].file_name) by {
                            if i < folder.comics.len() {
                                assert(next.comics[i] == folder.comics[i]);
                            }
                        }
                        assert(next.subfolders == folder.subfolders);
                    }
                    lemma_placed_after(listing, from + 1, location, next, put(index, e));
                } else {
                    lemma_placed_after(listing, from + 1, location, folder, index);
                }
            },
        }
    }
}

/// Every folder and every comic of the tree knows its place.  After a scan
/// the root folder is named `root` and has an empty path; a folder's path
/// names the folders above it, from the root down; and a comic in a folder
/// is the record of its file name in the folders down to that one: its
/// identifier is the file name, its series is the folder it lies in.
pub proof fn law_folder_tree_is_in_place(root: Seq<FsEntry>)
    requires
        scan_tree(Some(root)) is Ok,
    ensures
        is_in_place(scan_tree(Some(root))->Ok_0.root, seq![]),
        scan_tree(Some(root))->Ok_0.root.name == root_view().name,
        scan_tree(Some(root))->Ok_0.root.path == Seq::<Seq<char>>::empty(),
{
    let empty: Seq<EntryView> = seq![];
    assert(is_in_place(root_view(), seq![]));
    lemma_placed_after(root, 0, seq![], root_view(), empty);
}

/// Among the entries from `from` on, or in a directory below them, lies a
/// comic named `name` whose cover is `image`.
pub open spec fn tree_has_cover(
    listing: Seq<FsEntry>,
    from: nat,
    name: Seq<char>,
    image: Seq<u8>,
) -> bool
    decreases listing, listing.len() - from,
{
    if from >= listing.len() {
        false
    } else {
        let entry = listing[from as int];
        let here = match entry.node {
            FsNode::Dir { listing: Some(below) } => tree_has_cover(below, 0, name, image),
            FsNode::Dir { listing: None } => false,
            FsNode::File { bytes } => entry.name == name && is_comic_name(entry.name) && cover_in(
                bytes,
            ) == Some(image),
        };
        here || tree_has_cover(listing, from + 1, name, image)
    }
}

/// The cover that the index holds under an identifier.
pub open spec fn cover_held(index: Seq<EntryView>, id: Seq<char>) -> Seq<u8> {
    index[slot_of(index, id)->0].cover
}

/// A comic whose cover is known is a comic with a cover.
proof fn lemma_cover_is_of_a_comic(
    listing: Seq<FsEntry>,
    from: nat,
    name: Seq<char>,
    image: Seq<u8>,
)
    requires
        tree_has_cover(listing, from, name, image),
    ensures
        tree_has_comic(listing, from, name),
        comics_named(listing, from, name) > 0,
    decreases listing, listing.len() - from,
{
    lemma_named_iff_has(listing, from, name);
    if from < listing.len() {
        match listing[from as int].node {
            FsNode::Dir { listing: Some(below) } => {
                if tree_has_cover(below, 0, name, image) {
                    lemma_cover_is_of_a_comic(below, 0, name, image);
                }
            },
            _ => {},
        }
        if tree_has_cover(listing, from + 1, name, image) {
            lemma_cover_is_of_a_comic(listing, from + 1, name, image);
        }
    }
}

/// Where a name is that of one comic with a cover at most, that comic has
/// one cover.
proof fn lemma_cover_is_unique(
    listing: Seq<FsEntry>,
    from: nat,
    name: Seq<char>,
    a: Seq<u8>,
    b: Seq<u8>,
)
    requires
        comics_named(listing, from, name) <= 1,
        tree_has_cover(listing, from, name, a),
        tree_has_cover(listing, from, name, b),
    ensures
        a == b,
    decreases listing, listing.len() - from,
{
    let entry = listing[from as int];
    let a_behind = tree_has_cover(listing, from + 1, name, a);
    let b_behind = tree_has_cover(listing, from + 1, name, b);
    if a_behind {
        lemma_cover_is_of_a_comic(listing, from + 1, name, a);
    }
    if b_behind {
        lemma_cover_is_of_a_comic(listing, from + 1, name, b);
    }
    match entry.node {
        FsNode::Dir { listing: Some(below) } => {
            let a_below = tree_has_cover(below, 0, name, a);
            let b_below = tree_has_cover(below, 0, name, b);
            if a_below {
                lemma_cover_is_of_a_comic(below, 0, name, a);
            }
            if b_below {
                lemma_cover_is_of_a_comic(below, 0, name, b);
            }
            if a_below && b_below {
                lemma_cover_is_unique(below, 0, name, a, b);
            } else {
                lemma_cover_is_unique(listing, from + 1, name, a, b);
            }
        },
        FsNode::Dir { listing: None } => {
            lemma_cover_is_unique(listing, from + 1, name, a, b);
        },
        FsNode::File { bytes } => {
            if a_behind && b_behind {
                lemma_cover_is_unique(listing, from + 1, name, a, b);
            }
        },
    }
}

/// What a scan of some entries does to the covers: the cover held under an
/// identifier afterwards is the cover of a comic of that name among the
/// entries, or the cover that was held before.
proof fn lemma_cover_after(
    listing: Seq<FsEntry>,
    from: nat,
    location: Seq<Seq<char>>,
    folder: FolderView,
    index: Seq<EntryView>,
    id: Seq<char>,
)
    requires
        distinct_ids(index),
        scan_entries(listing, from, location, folder, index) is Some,
    ensures
        scan_entries(listing, from, location, folder, index) matches Some(scanned) && (holds_id(
            scanned.index,
            id,
        ) ==> tree_has_cover(listing, from, id, cover_held(scanned.index, id)) || (holds_id(
            index,
            id,
        ) && cover_held(scanned.index, id) == cover_held(index, id))),
    decreases listing, listing.len() - from,
{
    if from < listing.len() {
        let entry = listing[from as int];
        match entry.node {
            FsNode::Dir { listing: None } => {},
            FsNode::Dir { listing: Some(below) } => {
                let fresh = empty_view(entry.name, location);
                let inner = scan_entries(below, 0, location.push(entry.name), fresh, index);
                lemma_cover_after(below, 0, location.push(entry.name), fresh, index, id);
                lemma_index_after(below, 0, location.push(entry.name), fresh, index, id);
                let child = inner->0.folder;
                let index_below = inner->0.index;
                let next = if kept(child) {
                    with_subfolder(folder, child)
                } else {
                    folder
                };
                lemma_cover_after(listing, from + 1, location, next, index_below, id);
            },
            FsNode::File { bytes } => {
                if is_comic_name(entry.name) && cover_in(bytes) is Some {
                    let comic = comic_at(location, entry.name);
                    let e = EntryView { comic: comic, cover: cover_in(bytes)->0 };
                    lemma_put(index, e);
                    lemma_cover_after(
                        listing,
                        from + 1,
                        location,
                        with_comic(folder, comic),
                        put(index, e),
                        id,
                    );
                } else {
                    lemma_cover_after(listing, from + 1, location, folder, index, id);
                }
            },
        }
    }
}

/// Every published cover is a comic's own.  After a scan of a tree, the
/// cover held under an identifier is the cover of a file of the tree that
/// goes by that name: the content of the first image of its archive.
pub proof fn law_every_cover_is_of_a_comic_of_that_name(root: Seq<FsEntry>, id: Seq<char>)
    requires
        scan_tree(Some(root)) is Ok,
        scan_tree(Some(root))->Ok_0.covers().contains_key(id),
    ensures
        tree_has_cover(root, 0, id, scan_tree(Some(root))->Ok_0.covers()[id]),
{
    let empty: Seq<EntryView> = seq![];
    lemma_cover_after(root, 0, seq![], root_view(), empty, id);
    assert(!holds_id(empty, id));
}

/// The cover of a comic is published under the comic's name.  Where no two
/// comics with a cover in the tree have the same name, the catalog holds,
/// under the name of each, the cover of that very file; the name as a key,
/// and as a request identifier where it holds no `/`, stands for an entry
/// with that cover.
pub proof fn law_cover_of_a_comic_is_published(root: Seq<FsEntry>, name: Seq<char>, image: Seq<u8>)
    requires
        scan_tree(Some(root)) is Ok,
        comic_names_are_unique(root),
        tree_has_cover(root, 0, name, image),
    ensures
        scan_tree(Some(root))->Ok_0.covers().contains_key(name),
        scan_tree(Some(root))->Ok_0.covers()[name] == image,
        lookup(scan_tree(Some(root))->Ok_0.entries, name) matches Some(i) && scan_tree(
            Some(root),
        )->Ok_0.entries[i].cover == image,
        last_position(name, separator()) is None ==> (resolve(
            scan_tree(Some(root))->Ok_0.entries,
            name,
        ) matches Some(i) && scan_tree(Some(root))->Ok_0.entries[i].cover == image),
{
    let entries = scan_tree(Some(root))->Ok_0.entries;
    lemma_cover_is_of_a_comic(root, 0, name, image);
    law_catalog_holds_the_comics_with_covers(root, name);
    law_every_cover_is_of_a_comic_of_that_name(root, name);
    lemma_cover_is_unique(root, 0, name, image, cover_held(entries, name));
    lemma_slot_of(entries, name);
}

/// A scan of entries among and below which no comic with a cover lies
/// changes nothing, where it does not fail.
proof fn lemma_nothing_found(
    listing: Seq<FsEntry>,
    from: nat,
    location: Seq<Seq<char>>,
    folder: FolderView,
    index: Seq<EntryView>,
)
    requires
        comics_in(listing, from) == 0,
        scan_entries(listing, from, location, folder, index) is Some,
    ensures
        scan_entries(listing, from, location, folder, index) == Some(
            Scanned { folder: folder, index: index },
        ),
    decreases listing, listing.len() - from,
{
    if from < listing.len() {
        let entry = listing[from as int];
        match entry.node {
            FsNode::Dir { listing: None } => {},
            FsNode::Dir { listing: Some(below) } => {
                let fresh = empty_view(entry.name, location);
                lemma_nothing_found(below, 0, location.push(entry.name), fresh, index);
                assert(!kept(fresh));
                lemma_nothing_found(listing, from + 1, location, folder, index);
            },
            FsNode::File { .. } => {
                lemma_nothing_found(listing, from + 1, location, folder, index);
            },
        }
    }
}

/// A directory without comics leaves no folder.  Where no comic with a
/// cover lies in a directory or anywhere below it, however deep its empty
/// folders are nested, a scan that does not fail goes on behind it with the
/// folder and the index as they were.
pub proof fn law_directory_without_comics_leaves_no_folder(
    listing: Seq<FsEntry>,
    at: nat,
    location: Seq<Seq<char>>,
    folder: FolderView,
    index: Seq<EntryView>,
)
    requires
        at < listing.len(),
        listing[at as int].node is Dir,
        listing[at as int].node->listing is Some,
        comics_in(listing[at as int].node->listing->0, 0) == 0,
        scan_entries(listing, at, location, folder, index) is Some,
    ensures
        scan_entries(listing, at, location, folder, index) == scan_entries(
            listing,
            at + 1,
            location,
            folder,
            index,
        ),
{
    let entry = listing[at as int];
    let fresh = empty_view(entry.name, location);
    lemma_nothing_found(entry.node->listing->0, 0, location.push(entry.name), fresh, index);
    assert(!kept(fresh));
}

} // verus!
