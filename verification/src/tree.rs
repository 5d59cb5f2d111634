//! The directory tree as a mathematical value, what a scan of it has to
//! yield, and the proof that a scanner whose requests are answered from the
//! tree yields just that.

use crate::catalog::{put, CatalogView, EntryView};
use crate::comic::comic_at;
use crate::error::ComicError;
use crate::folder::{empty_view, kept, root_view, with_comic, with_subfolder, FolderView};
use crate::names::is_comic_name;
use crate::scanner::{
    advance, attach, child_frame, cover_in, lemma_entered_in_order,
    lemma_locations_after_entering, lemma_locations_after_moving, lemma_moved_in_order,
    lies_below, locations_in_order, on_cover,
    on_file, on_listing, outcome_of, remaining, request_of, settle, stack_in_order, start,
    with_top, DirEntryView, FrameView, Phase, ScanRequestView, ScannerView,
};
use vstd::prelude::*;

verus! {

/// An entry of a directory: a name and what goes by it.
pub struct FsEntry {
    pub name: Seq<char>,
    pub node: FsNode,
}

/// A file with its bytes or a directory with its entries; `None` where the
/// file system refuses to read the one or list the other.
pub enum FsNode {
    File { bytes: Option<Seq<u8>> },
    Dir { listing: Option<Seq<FsEntry>> },
}

/// What listing a directory shows of its entries: names, and which of them
/// are directories.
pub open spec fn kinds(listing: Seq<FsEntry>) -> Seq<DirEntryView> {
    Seq::new(
        listing.len(),
        |i: int| DirEntryView { name: listing[i].name, is_dir: listing[i].node is Dir },
    )
}

/// A folder and the index, as a scan leaves them behind.
pub struct Scanned {
    pub folder: FolderView,
    pub index: Seq<EntryView>,
}

/// What a scan of the entries from index `from` on adds to the folder of
/// their directory, which lies at `location`, and to the index.  The entries
/// are taken in the order of the listing and a directory is scanned to its
/// end before the entry behind it.  A directory that cannot be listed fails
/// the scan: the result is `None`.
pub open spec fn scan_entries(
    listing: Seq<FsEntry>,
    from: nat,
    location: Seq<Seq<char>>,
    folder: FolderView,
    index: Seq<EntryView>,
) -> Option<Scanned>
    decreases listing, listing.len() - from,
{
    if from >= listing.len() {
        Some(Scanned { folder: folder, index: index })
    } else {
        let entry = listing[from as int];
        match entry.node {
            FsNode::Dir { listing: None } => None,
            FsNode::Dir { listing: Some(below) } => match scan_entries(
                below,
                0,
                location.push(entry.name),
                empty_view(entry.name, location),
                index,
            ) {
                None => None,
                Some(inner) => scan_entries(
                    listing,
                    from + 1,
                    location,
                    if kept(inner.folder) {
                        with_subfolder(folder, inner.folder)
                    } else {
                        folder
                    },
                    inner.index,
                ),
            },
            FsNode::File { bytes } => if is_comic_name(entry.name) {
                match cover_in(bytes) {
                    Some(image) => scan_entries(
                        listing,
                        from + 1,
                        location,
                        with_comic(folder, comic_at(location, entry.name)),
                        put(
                            index,
                            EntryView { comic: comic_at(location, entry.name), cover: image },
                        ),
                    ),
                    None => scan_entries(listing, from + 1, location, folder, index),
                }
            } else {
                scan_entries(listing, from + 1, location, folder, index)
            },
        }
    }
}

/// The catalog of the tree whose root directory lists as `root`, or an I/O
/// error where the root or a directory below it cannot be listed.
pub open spec fn scan_tree(root: Option<Seq<FsEntry>>) -> Result<CatalogView, ComicError> {
    match root {
        None => Err(ComicError::IoError),
        Some(listing) => match scan_entries(listing, 0, seq![], root_view(), seq![]) {
            None => Err(ComicError::IoError),
            Some(scanned) => Ok(CatalogView { entries: scanned.index, root: scanned.folder }),
        },
    }
}

/// The listing of the directory that the frame at `depth` is for: the root
/// for the outermost frame, and for every other the directory that the frame
/// above it stands at.
spec fn listing_at(root: Option<Seq<FsEntry>>, stack: Seq<FrameView>, depth: nat) -> Option<
    Seq<FsEntry>,
>
    decreases depth,
{
    if depth == 0 {
        root
    } else {
        match listing_at(root, stack, (depth - 1) as nat) {
            None => None,
            Some(above) => if stack[depth - 1].cursor < above.len() {
                match above[stack[depth - 1].cursor as int].node {
                    FsNode::Dir { listing } => listing,
                    FsNode::File { .. } => None,
                }
            } else {
                None
            },
        }
    }
}

/// No two entries of the listing have the same name.
pub open spec fn names_differ(listing: Seq<FsEntry>) -> bool {
    forall|i: int, j: int|
        0 <= i < j < listing.len() ==> (#[trigger] listing[i]).name != (#[trigger] listing[j]).name
}

/// The tree is one that a file system can hold: no directory of it lists a
/// name twice.
pub open spec fn is_sound(listing: Seq<FsEntry>) -> bool
    decreases listing,
{
    &&& names_differ(listing)
    &&& forall|i: int|
        0 <= i < listing.len() ==> match (#[trigger] listing[i]).node {
            FsNode::Dir { listing: Some(below) } => is_sound(below),
            _ => true,
        }
}

/// The tree below a root that lists as `root` is sound.
pub open spec fn root_is_sound(root: Option<Seq<FsEntry>>) -> bool {
    match root {
        Some(listing) => is_sound(listing),
        None => true,
    }
}

/// The index of the first entry from `from` on that goes by `name`.
pub open spec fn position_of(listing: Seq<FsEntry>, name: Seq<char>, from: nat) -> Option<int>
    decreases listing.len() - from,
{
    if from >= listing.len() {
        None
    } else if listing[from as int].name == name {
        Some(from as int)
    } else {
        position_of(listing, name, from + 1)
    }
}

/// What lies at a path below the root: the root directory at the empty
/// path, and at any other the entry that goes by the path's last name in the
/// directory at the rest of the path.
pub open spec fn node_at(root: Option<Seq<FsEntry>>, path: Seq<Seq<char>>) -> Option<FsNode>
    decreases path.len(),
{
    if path.len() == 0 {
        Some(FsNode::Dir { listing: root })
    } else {
        match node_at(root, path.drop_last()) {
            Some(FsNode::Dir { listing: Some(listing) }) => match position_of(
                listing,
                path.last(),
                0,
            ) {
                Some(i) => Some(listing[i].node),
                None => None,
            },
            _ => None,
        }
    }
}

/// The tree's answer to the scanner's request for a listing: the entries of
/// the directory at the path asked for, or nothing where no directory lies
/// there or it cannot be listed.
pub open spec fn listing_from(root: Option<Seq<FsEntry>>, v: ScannerView) -> Option<
    Seq<DirEntryView>,
> {
    match request_of(v) {
        ScanRequestView::ListDir { path } => match node_at(root, path) {
            Some(FsNode::Dir { listing: Some(listing) }) => Some(kinds(listing)),
            _ => None,
        },
        _ => None,
    }
}

/// The tree's answer to the scanner's request for a file: the bytes of the
/// file at the path asked for, or nothing where no file lies there or it
/// cannot be read.
pub open spec fn file_from(root: Option<Seq<FsEntry>>, v: ScannerView) -> Option<Seq<u8>> {
    match request_of(v) {
        ScanRequestView::ReadFile { folder, file_name } => match node_at(
            root,
            folder.push(file_name),
        ) {
            Some(FsNode::File { bytes }) => bytes,
            _ => None,
        },
        _ => None,
    }
}

/// The state of a scanner after at most `steps` of its requests were
/// answered from the tree.
pub open spec fn drive(root: Option<Seq<FsEntry>>, v: ScannerView, steps: nat) -> ScannerView
    decreases steps,
{
    if steps == 0 {
        v
    } else {
        match v.phase {
            Phase::Listing => drive(
                root,
                on_listing(v, listing_from(root, v)),
                (steps - 1) as nat,
            ),
            Phase::Reading => drive(root, on_file(v, file_from(root, v)), (steps - 1) as nat),
            _ => v,
        }
    }
}

/// The number of requests that a scan of the entries from `from` on makes at
/// most: one for each directory and one for each comic.
pub open spec fn requests_in(listing: Seq<FsEntry>, from: nat) -> nat
    decreases listing, listing.len() - from,
{
    if from >= listing.len() {
        0
    } else {
        let here: nat = match listing[from as int].node {
            FsNode::Dir { listing: None } => 1,
            FsNode::Dir { listing: Some(below) } => 1 + requests_in(below, 0),
            FsNode::File { .. } => if is_comic_name(listing[from as int].name) {
                1
            } else {
                0
            },
        };
        here + requests_in(listing, from + 1)
    }
}

/// The number of requests that a scan of the tree makes at most.
pub open spec fn requests(root: Option<Seq<FsEntry>>) -> nat {
    match root {
        None => 1,
        Some(listing) => 1 + requests_in(listing, 0),
    }
}

/// The listing that a frame is for depends only on where the frames above
/// it stand.
proof fn lemma_listing_at_prefix(
    root: Option<Seq<FsEntry>>,
    s1: Seq<FrameView>,
    s2: Seq<FrameView>,
    depth: nat,
)
    requires
        depth <= s1.len(),
        depth <= s2.len(),
        forall|j: int| 0 <= j < depth ==> s1[j].cursor == s2[j].cursor,
    ensures
        listing_at(root, s1, depth) == listing_at(root, s2, depth),
    decreases depth,
{
    if depth > 0 {
        lemma_listing_at_prefix(root, s1, s2, (depth - 1) as nat);
    }
}

/// Where the scan runs on to does not depend on the phase it starts in.
proof fn lemma_settle_ignores_phase(v: ScannerView, phase: Phase)
    requires
        v.stack.len() > 0,
    ensures
        settle(ScannerView { phase: phase, ..v }) == settle(v),
    decreases v.stack.len(), remaining(v),
{
    let w = ScannerView { phase: phase, ..v };
    let top = v.stack.last();
    if top.cursor >= top.entries.len() {
        if v.stack.len() > 1 {
            let parent = v.stack[v.stack.len() - 2];
            let stack = v.stack.drop_last().drop_last().push(attach(parent, top.folder));
            lemma_settle_ignores_phase(ScannerView { stack: stack, ..v }, phase);
            assert(ScannerView { stack: stack, ..w } == ScannerView {
                phase: phase,
                ..ScannerView { stack: stack, ..v }
            });
        }
    } else {
        let entry = top.entries[top.cursor as int];
        if !entry.is_dir && !is_comic_name(entry.name) {
            lemma_settle_ignores_phase(with_top(v, advance(top)), phase);
            assert(with_top(w, advance(top)) == ScannerView {
                phase: phase,
                ..with_top(v, advance(top))
            });
        }
    }
}

/// The state with the innermost directory scanned to its end: its frame
/// holds the finished folder and stands behind the last entry.
spec fn finished_top(v: ScannerView, folder: FolderView, index: Seq<EntryView>) -> ScannerView {
    ScannerView {
        stack: v.stack.drop_last().push(
            FrameView {
                folder: folder,
                cursor: v.stack.last().entries.len(),
                ..v.stack.last()
            },
        ),
        index: index,
        ..v
    }
}

/// What `lemma_walk` asks of a state: the tree is sound, and the scanner
/// stands in a directory of it, with the listing of each directory that it
/// has entered in the frame for it.
spec fn stands_in(root: Option<Seq<FsEntry>>, v: ScannerView, listing: Seq<FsEntry>) -> bool {
    &&& root_is_sound(root)
    &&& stack_in_order(v.stack)
    &&& locations_in_order(v.stack)
    &&& listing_at(root, v.stack, (v.stack.len() - 1) as nat) == Some(listing)
    &&& v.stack.last().entries == kinds(listing)
    &&& forall|k: int| 0 <= k < v.stack.len() ==> #[trigger] holds_listing(root, v.stack, k)
}

/// The frame at `depth` is for a directory of the tree that can be listed,
/// and holds its listing.
spec fn holds_listing(root: Option<Seq<FsEntry>>, stack: Seq<FrameView>, depth: int) -> bool {
    listing_at(root, stack, depth as nat) is Some && stack[depth].entries == kinds(
        listing_at(root, stack, depth as nat)->0,
    )
}

/// In a sound listing an entry is the first of its name.
proof fn lemma_position_of(listing: Seq<FsEntry>, at: int, from: nat)
    requires
        names_differ(listing),
        from <= at < listing.len(),
    ensures
        position_of(listing, listing[at].name, from) == Some(at),
    decreases at - from,
{
    if from < at {
        lemma_position_of(listing, at, from + 1);
    }
}

/// The path that a frame records leads to the directory that the frame is
/// for, and that directory is sound.
proof fn lemma_path_leads(
    root: Option<Seq<FsEntry>>,
    v: ScannerView,
    listing: Seq<FsEntry>,
    depth: nat,
)
    requires
        stands_in(root, v, listing),
        depth < v.stack.len(),
    ensures
        listing_at(root, v.stack, depth) matches Some(here) && is_sound(here) && node_at(
            root,
            v.stack[depth as int].location,
        ) == Some(FsNode::Dir { listing: Some(here) }),
    decreases depth,
{
    let frame = v.stack[depth as int];
    assert(holds_listing(root, v.stack, depth as int));
    if depth == 0 {
        assert(frame.location.len() == 0);
    } else {
        lemma_path_leads(root, v, listing, (depth - 1) as nat);
        let parent = v.stack[depth - 1];
        let above = listing_at(root, v.stack, (depth - 1) as nat)->0;
        let at = parent.cursor as int;
        assert(holds_listing(root, v.stack, depth - 1));
        assert(lies_below(v.stack, depth as int));
        assert(parent.entries == kinds(above));
        assert(parent.entries[at].name == above[at].name);
        assert(frame.location == parent.location.push(above[at].name));
        assert(frame.location.drop_last() =~= parent.location);
        assert(frame.location.last() == above[at].name);
        lemma_position_of(above, at, 0);
    }
}

/// What lies at the entry that the scanner stands at is what the tree holds
/// under the path to that entry.
proof fn lemma_path_to_entry(root: Option<Seq<FsEntry>>, v: ScannerView, listing: Seq<FsEntry>)
    requires
        stands_in(root, v, listing),
        v.stack.last().cursor < listing.len(),
    ensures
        node_at(
            root,
            v.stack.last().location.push(listing[v.stack.last().cursor as int].name),
        ) == Some(listing[v.stack.last().cursor as int].node),
        is_sound(listing),
{
    let top = v.stack.last();
    let depth = (v.stack.len() - 1) as nat;
    lemma_path_leads(root, v, listing, depth);
    let path = top.location.push(listing[top.cursor as int].name);
    assert(path.drop_last() =~= top.location);
    assert(path.last() == listing[top.cursor as int].name);
    lemma_position_of(listing, top.cursor as int, 0);
}

/// Another frame for the same directory, with the same listing, in the
/// place of the innermost leaves the scanner standing where it stood.
proof fn lemma_stands_after_moving(
    root: Option<Seq<FsEntry>>,
    v: ScannerView,
    listing: Seq<FsEntry>,
    next: ScannerView,
)
    requires
        stands_in(root, v, listing),
        next.stack == v.stack.drop_last().push(next.stack.last()),
        next.stack.last().entries == v.stack.last().entries,
        next.stack.last().location == v.stack.last().location,
        next.stack.last().cursor <= next.stack.last().entries.len(),
    ensures
        stands_in(root, next, listing),
{
    let depth = (v.stack.len() - 1) as nat;
    lemma_moved_in_order(v.stack, next.stack.last());
    lemma_locations_after_moving(v.stack, next.stack.last());
    assert forall|k: int| 0 <= k < next.stack.len() implies #[trigger] holds_listing(
        root,
        next.stack,
        k,
    ) by {
        lemma_listing_at_prefix(root, next.stack, v.stack, k as nat);
        assert(holds_listing(root, v.stack, k));
        if k < depth {
            assert(next.stack[k] == v.stack[k]);
        }
    }
    lemma_listing_at_prefix(root, next.stack, v.stack, depth);
}

/// What `lemma_walk` shows of a state: answered from the tree, the scanner
/// comes to stand at the end of the listing with what `scan_entries` says in
/// folder and index, or fails where `scan_entries` does.
spec fn walks(root: Option<Seq<FsEntry>>, v: ScannerView, listing: Seq<FsEntry>, steps: nat) -> bool {
    match scan_entries(
        listing,
        v.stack.last().cursor,
        v.stack.last().location,
        v.stack.last().folder,
        v.index,
    ) {
        Some(scanned) => drive(root, settle(v), steps) == drive(
            root,
            settle(finished_top(v, scanned.folder, scanned.index)),
            (steps - requests_in(listing, v.stack.last().cursor)) as nat,
        ),
        None => drive(root, settle(v), steps).phase == Phase::Failed,
    }
}

/// The walk through one directory, from the entry that the scanner stands
/// at to the end of the listing.
proof fn lemma_walk(
    root: Option<Seq<FsEntry>>,
    v: ScannerView,
    listing: Seq<FsEntry>,
    steps: nat,
)
    requires
        stands_in(root, v, listing),
        steps >= requests_in(listing, v.stack.last().cursor),
    ensures
        walks(root, v, listing, steps),
    decreases listing, listing.len() - v.stack.last().cursor, 1nat,
{
    let top = v.stack.last();
    let from = top.cursor;
    if from >= listing.len() {
        assert(finished_top(v, top.folder, v.index).stack =~= v.stack);
        assert(finished_top(v, top.folder, v.index) == v);
    } else {
        let entry = listing[from as int];
        match entry.node {
            FsNode::Dir { listing: None } => {
                lemma_walk_into_unreadable(root, v, listing, steps);
            },
            FsNode::Dir { listing: Some(_) } => {
                lemma_walk_into_directory(root, v, listing, steps);
            },
            FsNode::File { .. } => {
                if is_comic_name(entry.name) {
                    lemma_walk_over_comic(root, v, listing, steps);
                } else {
                    lemma_walk_past_file(root, v, listing, steps);
                }
            },
        }
    }
}

/// The walk where the scanner stands at a directory that cannot be listed.
proof fn lemma_walk_into_unreadable(
    root: Option<Seq<FsEntry>>,
    v: ScannerView,
    listing: Seq<FsEntry>,
    steps: nat,
)
    requires
        stands_in(root, v, listing),
        steps >= requests_in(listing, v.stack.last().cursor),
        v.stack.last().cursor < listing.len(),
        listing[v.stack.last().cursor as int].node == (FsNode::Dir { listing: None }),
    ensures
        walks(root, v, listing, steps),
{
    let top = v.stack.last();
    let depth = (v.stack.len() - 1) as nat;
    let from = top.cursor;
    let entry = listing[from as int];
    assert(top.entries[from as int].name == entry.name);
    assert(top.entries[from as int].is_dir);
    let child = child_frame(top, entry.name);
    let entered = ScannerView { stack: v.stack.push(child), phase: Phase::Listing, ..v };
    assert(settle(v) == entered);
    assert(entered.stack.last() == child);
    lemma_path_to_entry(root, v, listing);
    assert(request_of(entered) == ScanRequestView::ListDir { path: child.location });
    assert(listing_from(root, entered) is None);
    let failed = on_listing(entered, None);
    assert(failed.phase == Phase::Failed);
    assert(drive(root, entered, steps) == drive(root, failed, (steps - 1) as nat));
    assert(drive(root, failed, (steps - 1) as nat) == failed);
}

/// The state after the scanner has entered the directory that it stood at
/// and was handed its listing.
spec fn entered_and_listed(v: ScannerView, name: Seq<char>, inner: Seq<FsEntry>) -> ScannerView {
    ScannerView {
        stack: v.stack.push(
            FrameView { entries: kinds(inner), cursor: 0, ..child_frame(v.stack.last(), name) },
        ),
        phase: Phase::Listing,
        ..v
    }
}

/// The state after the scanner has left a directory below the one it
/// stands in, with `built` the folder built there.
spec fn returned(v: ScannerView, built: FolderView, index: Seq<EntryView>) -> ScannerView {
    ScannerView { stack: v.stack.drop_last().push(attach(v.stack.last(), built)), index: index, ..v }
}

/// Entering a directory that can be listed costs one request and leads to
/// the walk through it.
proof fn lemma_enter(root: Option<Seq<FsEntry>>, v: ScannerView, listing: Seq<FsEntry>, steps: nat)
    requires
        stands_in(root, v, listing),
        steps >= 1,
        v.stack.last().cursor < listing.len(),
        listing[v.stack.last().cursor as int].node is Dir,
        listing[v.stack.last().cursor as int].node->listing is Some,
    ensures
        drive(root, settle(v), steps) == drive(
            root,
            settle(
                entered_and_listed(
                    v,
                    listing[v.stack.last().cursor as int].name,
                    listing[v.stack.last().cursor as int].node->listing->0,
                ),
            ),
            (steps - 1) as nat,
        ),
        stands_in(
            root,
            entered_and_listed(
                v,
                listing[v.stack.last().cursor as int].name,
                listing[v.stack.last().cursor as int].node->listing->0,
            ),
            listing[v.stack.last().cursor as int].node->listing->0,
        ),
{
    let top = v.stack.last();
    let depth = (v.stack.len() - 1) as nat;
    let from = top.cursor;
    let entry = listing[from as int];
    let inner = entry.node->listing->0;
    assert(top.entries[from as int].name == entry.name);
    assert(top.entries[from as int].is_dir);
    let child = child_frame(top, entry.name);
    let entered = ScannerView { stack: v.stack.push(child), phase: Phase::Listing, ..v };
    assert(settle(v) == entered);
    assert(entered.stack.last() == child);
    assert(entered.stack.drop_last() =~= v.stack);
    lemma_path_to_entry(root, v, listing);
    assert(request_of(entered) == ScanRequestView::ListDir { path: child.location });
    assert(listing_from(root, entered) == Some(kinds(inner)));
    let listed = entered_and_listed(v, entry.name, inner);
    assert(with_top(entered, FrameView { entries: kinds(inner), cursor: 0, ..child }).stack
        =~= listed.stack);
    assert(on_listing(entered, Some(kinds(inner))) == settle(listed));
    assert(drive(root, entered, steps) == drive(root, settle(listed), (steps - 1) as nat));
    lemma_entered_in_order(v.stack, listed.stack.last());
    lemma_locations_after_entering(v.stack, listed.stack.last());
    assert(listed.stack.drop_last() =~= v.stack);
    lemma_listing_at_prefix(root, listed.stack, v.stack, depth);
    assert(listing_at(root, listed.stack, depth + 1) == Some(inner));
    assert forall|k: int| 0 <= k < listed.stack.len() implies #[trigger] holds_listing(
        root,
        listed.stack,
        k,
    ) by {
        if k <= depth {
            lemma_listing_at_prefix(root, listed.stack, v.stack, k as nat);
            assert(listed.stack[k] == v.stack[k]);
            assert(holds_listing(root, v.stack, k));
        }
    }
    assert(is_sound(inner)) by {
        assert(listing[from as int].node == (FsNode::Dir { listing: Some(inner) }));
    }
}

/// Leaving a directory that was scanned to its end leads back to the
/// directory above, one entry further on.
proof fn lemma_leave(
    root: Option<Seq<FsEntry>>,
    v: ScannerView,
    listing: Seq<FsEntry>,
    name: Seq<char>,
    inner: Seq<FsEntry>,
    built: FolderView,
    index: Seq<EntryView>,
)
    requires
        stands_in(root, v, listing),
        v.stack.last().cursor < listing.len(),
    ensures
        settle(finished_top(entered_and_listed(v, name, inner), built, index)) == settle(
            returned(v, built, index),
        ),
        stands_in(root, returned(v, built, index), listing),
        returned(v, built, index).stack.last().cursor == v.stack.last().cursor + 1,
        returned(v, built, index).stack.last().location == v.stack.last().location,
        returned(v, built, index).stack.last().folder == attach(v.stack.last(), built).folder,
{
    let top = v.stack.last();
    let depth = (v.stack.len() - 1) as nat;
    let listed = entered_and_listed(v, name, inner);
    let left = finished_top(listed, built, index);
    let back = returned(v, built, index);
    assert(left.stack.drop_last().drop_last() =~= v.stack.drop_last());
    assert(left.stack[left.stack.len() - 2] == top);
    assert(left.stack.last().folder == built);
    let popped = ScannerView {
        stack: left.stack.drop_last().drop_last().push(attach(top, built)),
        ..left
    };
    assert(settle(left) == settle(popped));
    assert(popped.stack =~= back.stack);
    lemma_settle_ignores_phase(back, Phase::Listing);
    assert(popped == ScannerView { phase: Phase::Listing, ..back });
    assert(back.stack.last() == attach(top, built));
    lemma_stands_after_moving(root, v, listing, back);
}

/// The walk where the scanner stands at a directory that can be listed.
proof fn lemma_walk_into_directory(
    root: Option<Seq<FsEntry>>,
    v: ScannerView,
    listing: Seq<FsEntry>,
    steps: nat,
)
    requires
        stands_in(root, v, listing),
        steps >= requests_in(listing, v.stack.last().cursor),
        v.stack.last().cursor < listing.len(),
        listing[v.stack.last().cursor as int].node is Dir,
        listing[v.stack.last().cursor as int].node->listing is Some,
    ensures
        walks(root, v, listing, steps),
    decreases listing, listing.len() - v.stack.last().cursor, 0nat,
{
    let top = v.stack.last();
    let from = top.cursor;
    let entry = listing[from as int];
    let inner = entry.node->listing->0;
    let child = child_frame(top, entry.name);
    let listed = entered_and_listed(v, entry.name, inner);
    lemma_enter(root, v, listing, steps);
    lemma_walk(root, listed, inner, (steps - 1) as nat);
    match scan_entries(inner, 0, child.location, child.folder, v.index) {
        None => {},
        Some(inner_scanned) => {
            let built = inner_scanned.folder;
            let index_below = inner_scanned.index;
            let back = returned(v, built, index_below);
            lemma_leave(root, v, listing, entry.name, inner, built, index_below);
            let spent = (steps - 1 - requests_in(inner, 0)) as nat;
            lemma_walk(root, back, listing, spent);
            match scan_entries(
                listing,
                from + 1,
                top.location,
                attach(top, built).folder,
                index_below,
            ) {
                None => {},
                Some(scanned) => {
                    assert(finished_top(back, scanned.folder, scanned.index).stack
                        =~= finished_top(v, scanned.folder, scanned.index).stack);
                },
            }
        },
    }
}

/// The state after the scanner was handed the cover, or none, of the comic
/// that it stood at.
spec fn read_on(v: ScannerView, name: Seq<char>, cover: Option<Seq<u8>>) -> ScannerView {
    let top = v.stack.last();
    let comic = comic_at(top.location, name);
    match cover {
        Some(image) => ScannerView {
            stack: v.stack.drop_last().push(
                advance(FrameView { folder: with_comic(top.folder, comic), ..top }),
            ),
            index: put(v.index, EntryView { comic: comic, cover: image }),
            ..v
        },
        None => with_top(v, advance(top)),
    }
}

/// Reading a comic costs one request and leads one entry further on.
proof fn lemma_read(root: Option<Seq<FsEntry>>, v: ScannerView, listing: Seq<FsEntry>, steps: nat)
    requires
        stands_in(root, v, listing),
        steps >= 1,
        v.stack.last().cursor < listing.len(),
        listing[v.stack.last().cursor as int].node is File,
        is_comic_name(listing[v.stack.last().cursor as int].name),
    ensures
        drive(root, settle(v), steps) == drive(
            root,
            settle(
                read_on(
                    v,
                    listing[v.stack.last().cursor as int].name,
                    cover_in(listing[v.stack.last().cursor as int].node->bytes),
                ),
            ),
            (steps - 1) as nat,
        ),
        stands_in(
            root,
            read_on(
                v,
                listing[v.stack.last().cursor as int].name,
                cover_in(listing[v.stack.last().cursor as int].node->bytes),
            ),
            listing,
        ),
{
    let top = v.stack.last();
    let depth = (v.stack.len() - 1) as nat;
    let from = top.cursor;
    let entry = listing[from as int];
    let bytes = entry.node->bytes;
    assert(top.entries[from as int].name == entry.name);
    assert(!top.entries[from as int].is_dir);
    let waiting = ScannerView { phase: Phase::Reading, ..v };
    assert(settle(v) == waiting);
    lemma_path_to_entry(root, v, listing);
    assert(request_of(waiting) == ScanRequestView::ReadFile {
        folder: top.location,
        file_name: entry.name,
    });
    assert(file_from(root, waiting) == bytes);
    let next = read_on(v, entry.name, cover_in(bytes));
    let moved = ScannerView { phase: Phase::Reading, ..next };
    assert(on_cover(waiting, cover_in(bytes)) == settle(moved));
    assert(on_file(waiting, bytes) == settle(moved));
    assert(drive(root, waiting, steps) == drive(root, settle(moved), (steps - 1) as nat));
    lemma_settle_ignores_phase(next, Phase::Reading);
    assert(next.stack =~= v.stack.drop_last().push(next.stack.last()));
    lemma_stands_after_moving(root, v, listing, next);
}

/// The walk where the scanner stands at a comic.
proof fn lemma_walk_over_comic(
    root: Option<Seq<FsEntry>>,
    v: ScannerView,
    listing: Seq<FsEntry>,
    steps: nat,
)
    requires
        stands_in(root, v, listing),
        steps >= requests_in(listing, v.stack.last().cursor),
        v.stack.last().cursor < listing.len(),
        listing[v.stack.last().cursor as int].node is File,
        is_comic_name(listing[v.stack.last().cursor as int].name),
    ensures
        walks(root, v, listing, steps),
    decreases listing, listing.len() - v.stack.last().cursor, 0nat,
{
    let top = v.stack.last();
    let from = top.cursor;
    let entry = listing[from as int];
    let next = read_on(v, entry.name, cover_in(entry.node->bytes));
    lemma_read(root, v, listing, steps);
    lemma_walk(root, next, listing, (steps - 1) as nat);
    match scan_entries(
        listing,
        from + 1,
        top.location,
        next.stack.last().folder,
        next.index,
    ) {
        None => {},
        Some(scanned) => {
            assert(finished_top(next, scanned.folder, scanned.index).stack =~= finished_top(
                v,
                scanned.folder,
                scanned.index,
            ).stack);
        },
    }
}

/// The walk where the scanner stands at a file that is no comic.
proof fn lemma_walk_past_file(
    root: Option<Seq<FsEntry>>,
    v: ScannerView,
    listing: Seq<FsEntry>,
    steps: nat,
)
    requires
        stands_in(root, v, listing),
        steps >= requests_in(listing, v.stack.last().cursor),
        v.stack.last().cursor < listing.len(),
        listing[v.stack.last().cursor as int].node is File,
        !is_comic_name(listing[v.stack.last().cursor as int].name),
    ensures
        walks(root, v, listing, steps),
    decreases listing, listing.len() - v.stack.last().cursor, 0nat,
{
    let top = v.stack.last();
    let depth = (v.stack.len() - 1) as nat;
    let from = top.cursor;
    let entry = listing[from as int];
    assert(top.entries[from as int].name == entry.name);
    assert(!top.entries[from as int].is_dir);
    let next = with_top(v, advance(top));
    assert(settle(v) == settle(next));
    assert(next.stack.last() == advance(top));
    lemma_stands_after_moving(root, v, listing, next);
    lemma_walk(root, next, listing, steps);
    match scan_entries(listing, from + 1, top.location, top.folder, v.index) {
        None => {},
        Some(scanned) => {
            assert(finished_top(next, scanned.folder, scanned.index).stack =~= finished_top(
                v,
                scanned.folder,
                scanned.index,
            ).stack);
        },
    }
}

/// A scan follows the tree.  A scanner that starts at `Scanner::new` and has
/// each of its requests answered with what the tree holds at the place it
/// asked about ends, after no more requests than the tree has directories
/// and comics, with the catalog of the tree, or with an I/O error where a
/// directory of the tree cannot be listed.
pub proof fn law_scan_follows_tree(root: Option<Seq<FsEntry>>, steps: nat)
    requires
        root_is_sound(root),
        steps >= requests(root),
    ensures
        outcome_of(drive(root, start(), steps)) == Some(scan_tree(root)),
{
    let v = start();
    assert(v.stack.last() == v.stack[0]);
    assert(listing_at(root, v.stack, 0) == root);
    assert(request_of(v) == ScanRequestView::ListDir { path: Seq::<Seq<char>>::empty() });
    assert(node_at(root, Seq::<Seq<char>>::empty()) == Some(FsNode::Dir { listing: root }));
    match root {
        None => {
            let failed = on_listing(v, None);
            assert(drive(root, v, steps) == drive(root, failed, (steps - 1) as nat));
            assert(drive(root, failed, (steps - 1) as nat) == failed);
        },
        Some(listing) => {
            let top = FrameView { entries: kinds(listing), cursor: 0, ..v.stack.last() };
            let listed = with_top(v, top);
            assert(on_listing(v, Some(kinds(listing))) == settle(listed));
            assert(drive(root, v, steps) == drive(root, settle(listed), (steps - 1) as nat));
            assert(listed.stack =~= seq![top]);
            assert(listed.stack.last() == top);
            assert(stack_in_order(listed.stack));
            assert(locations_in_order(listed.stack));
            assert(listing_at(root, listed.stack, 0) == root);
            assert forall|k: int| 0 <= k < listed.stack.len() implies #[trigger] holds_listing(
                root,
                listed.stack,
                k,
            ) by {
                assert(k == 0);
            }
            assert(stands_in(root, listed, listing));
            lemma_walk(root, listed, listing, (steps - 1) as nat);
            match scan_entries(listing, 0, seq![], root_view(), seq![]) {
                None => {
                    let end = drive(root, settle(listed), (steps - 1) as nat);
                    assert(end.phase == Phase::Failed);
                },
                Some(scanned) => {
                    let end = finished_top(listed, scanned.folder, scanned.index);
                    assert(end.stack =~= seq![
                        FrameView { folder: scanned.folder, cursor: kinds(listing).len(), ..top },
                    ]);
                    assert(end.stack.last() == end.stack[0]);
                    let done = ScannerView { phase: Phase::Done, ..end };
                    assert(settle(end) == done);
                    let rest = (steps - 1 - requests_in(listing, 0)) as nat;
                    assert(drive(root, done, rest) == done);
                },
            }
        },
    }
}

/// Scanning a tree that has not changed yields the same catalog again: two
/// scans of one tree end alike, in comics, covers and folders.
pub proof fn law_rescan_yields_same_catalog(root: Option<Seq<FsEntry>>, first: nat, second: nat)
    requires
        root_is_sound(root),
        first >= requests(root),
        second >= requests(root),
    ensures
        outcome_of(drive(root, start(), first)) == outcome_of(drive(root, start(), second)),
        outcome_of(drive(root, start(), first)) is Some,
{
    law_scan_follows_tree(root, first);
    law_scan_follows_tree(root, second);
}

} // verus!
