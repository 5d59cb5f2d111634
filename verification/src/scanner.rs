//! The directory scanner.  It walks the tree below the root and builds the
//! catalog, but reads nothing itself: it says which directory it wants
//! listed or which file it wants read, is handed the answer, and says what
//! it wants next.  A scan is one scanner taken from `Scanner::new` to a
//! finished phase.

use crate::catalog::{distinct_ids, entry_views, lemma_put, put, put_entry, Catalog, CatalogView, Entry, EntryView};
use crate::comic::{comic_at, Comic, CoverImage};
use crate::cover::{cover_of, extract_cover};
use crate::error::ComicError;
use crate::folder::{empty_view, kept, root_view, with_comic, with_subfolder, Folder, FolderView};
use crate::names::{clone_texts, is_comic_file, is_comic_name, texts};
use vstd::prelude::*;

verus! {

/// One entry of a directory listing.
#[derive(Debug, PartialEq, Eq)]
pub struct DirEntry {
    pub name: String,
    pub is_dir: bool,
}

/// What a `DirEntry` holds, as mathematical values.
pub struct DirEntryView {
    pub name: Seq<char>,
    pub is_dir: bool,
}

impl View for DirEntry {
    type V = DirEntryView;

    open spec fn view(&self) -> DirEntryView {
        DirEntryView { name: self.name@, is_dir: self.is_dir }
    }
}

/// The views of a listing, entry by entry.
pub open spec fn listing_view(v: Seq<DirEntry>) -> Seq<DirEntryView> {
    Seq::new(v.len(), |i: int| v[i]@)
}

/// Where a scan stands.
#[derive(Clone, Copy, Debug, PartialEq, Eq, Structural)]
pub enum Phase {
    /// The scanner waits for the listing of a directory.
    Listing,
    /// The scanner waits for the bytes of a file.
    Reading,
    /// The scan is complete.
    Done,
    /// A directory could not be listed; the scan is given up.
    Failed,
}

/// A directory that the scan has entered and not yet left.
#[derive(Debug)]
struct Frame {
    folder: Folder,
    location: Vec<String>,
    entries: Vec<DirEntry>,
    cursor: usize,
}

/// A directory that the scan has entered and not yet left: the folder built
/// for it so far, where it lies below the root, its listing, and the index
/// of the entry that the scan is at.
pub struct FrameView {
    pub folder: FolderView,
    pub location: Seq<Seq<char>>,
    pub entries: Seq<DirEntryView>,
    pub cursor: nat,
}

impl View for Frame {
    type V = FrameView;

    closed spec fn view(&self) -> FrameView {
        FrameView {
            folder: self.folder@,
            location: texts(self.location@),
            entries: listing_view(self.entries@),
            cursor: self.cursor as nat,
        }
    }
}

/// The state of a scan: the directories entered and not yet left, the
/// outermost first, the entries catalogued so far, and the phase.
pub struct ScannerView {
    pub stack: Seq<FrameView>,
    pub index: Seq<EntryView>,
    pub phase: Phase,
}

/// What the scanner asks of its caller.
#[derive(Debug, PartialEq, Eq)]
pub enum ScanRequest {
    /// List the directory that lies at `path` below the root.
    ListDir { path: Vec<String> },
    /// Read the file `file_name` in the directory at `folder` below the root.
    ReadFile { folder: Vec<String>, file_name: String },
    /// Nothing: the scan has ended.
    Nothing,
}

/// What a `ScanRequest` holds, as mathematical values.
pub enum ScanRequestView {
    ListDir { path: Seq<Seq<char>> },
    ReadFile { folder: Seq<Seq<char>>, file_name: Seq<char> },
    Nothing,
}

impl View for ScanRequest {
    type V = ScanRequestView;

    open spec fn view(&self) -> ScanRequestView {
        match self {
            ScanRequest::ListDir { path } => ScanRequestView::ListDir { path: texts(path@) },
            ScanRequest::ReadFile { folder, file_name } => ScanRequestView::ReadFile {
                folder: texts(folder@),
                file_name: file_name@,
            },
            ScanRequest::Nothing => ScanRequestView::Nothing,
        }
    }
}

/// The frame of the root directory before it is listed.
pub open spec fn root_frame() -> FrameView {
    FrameView { folder: root_view(), location: seq![], entries: seq![], cursor: 0 }
}

/// The state in which every scan starts: at the root, waiting for its
/// listing.
pub open spec fn start() -> ScannerView {
    ScannerView { stack: seq![root_frame()], index: seq![], phase: Phase::Listing }
}

/// The frame of the directory `name` that lies in the directory of `parent`.
pub open spec fn child_frame(parent: FrameView, name: Seq<char>) -> FrameView {
    FrameView {
        folder: empty_view(name, parent.location),
        location: parent.location.push(name),
        entries: seq![],
        cursor: 0,
    }
}

/// The parent's frame after the scan has left a directory below it: the
/// folder built there is attached if it holds anything, and the parent moves
/// on to its next entry.
pub open spec fn attach(parent: FrameView, child: FolderView) -> FrameView {
    FrameView {
        folder: if kept(child) {
            with_subfolder(parent.folder, child)
        } else {
            parent.folder
        },
        cursor: parent.cursor + 1,
        ..parent
    }
}

/// The frame moved on to its next entry.
pub open spec fn advance(frame: FrameView) -> FrameView {
    FrameView { cursor: frame.cursor + 1, ..frame }
}

/// The state with another frame in the place of the innermost.
pub open spec fn with_top(v: ScannerView, top: FrameView) -> ScannerView {
    ScannerView { stack: v.stack.drop_last().push(top), ..v }
}

/// How many entries of the innermost directory the scan has yet to pass.
pub open spec fn remaining(v: ScannerView) -> int {
    if v.stack.len() > 0 && v.stack.last().cursor < v.stack.last().entries.len() {
        v.stack.last().entries.len() - v.stack.last().cursor
    } else {
        0
    }
}

/// Runs the scan on from a state in which nothing is waited for, up to the
/// next thing that the caller has to supply.  Entries that are neither
/// directories nor comics are passed over.  A directory is entered, and its
/// listing waited for.  A comic's bytes are waited for.  At the end of a
/// listing the directory is left; its folder is attached to the parent's
/// only if it holds a comic or a subfolder.  At the end of the root's
/// listing the scan is done.
pub open spec fn settle(v: ScannerView) -> ScannerView
    decreases v.stack.len(), remaining(v),
{
    if v.stack.len() == 0 {
        v
    } else {
        let top = v.stack.last();
        if top.cursor >= top.entries.len() {
            if v.stack.len() == 1 {
                ScannerView { phase: Phase::Done, ..v }
            } else {
                let parent = v.stack[v.stack.len() - 2];
                settle(
                    ScannerView {
                        stack: v.stack.drop_last().drop_last().push(attach(parent, top.folder)),
                        ..v
                    },
                )
            }
        } else {
            let entry = top.entries[top.cursor as int];
            if entry.is_dir {
                ScannerView {
                    stack: v.stack.push(child_frame(top, entry.name)),
                    phase: Phase::Listing,
                    ..v
                }
            } else if is_comic_name(entry.name) {
                ScannerView { phase: Phase::Reading, ..v }
            } else {
                settle(with_top(v, advance(top)))
            }
        }
    }
}

/// The state after the caller has answered a request for a listing: with
/// the entries, the scan runs on through them; without, it has failed.  An
/// answer that was not waited for changes nothing.
pub open spec fn on_listing(v: ScannerView, answer: Option<Seq<DirEntryView>>) -> ScannerView {
    if v.phase != Phase::Listing || v.stack.len() == 0 {
        v
    } else {
        match answer {
            None => ScannerView { phase: Phase::Failed, ..v },
            Some(entries) => settle(
                with_top(v, FrameView { entries: entries, cursor: 0, ..v.stack.last() }),
            ),
        }
    }
}

/// The state after the cover of the comic that the scan is at was looked
/// for.  With a cover, the comic is added to the folder of its directory and
/// put into the index together with the cover; without, the file leaves no
/// trace.  Either way the scan runs on.  An answer that was not waited for
/// changes nothing.
pub open spec fn on_cover(v: ScannerView, cover: Option<Seq<u8>>) -> ScannerView {
    if v.phase != Phase::Reading || v.stack.len() == 0 || v.stack.last().cursor
        >= v.stack.last().entries.len() {
        v
    } else {
        let top = v.stack.last();
        let comic = comic_at(top.location, top.entries[top.cursor as int].name);
        match cover {
            Some(image) => settle(
                ScannerView {
                    stack: v.stack.drop_last().push(
                        advance(FrameView { folder: with_comic(top.folder, comic), ..top }),
                    ),
                    index: put(v.index, EntryView { comic: comic, cover: image }),
                    ..v
                },
            ),
            None => settle(with_top(v, advance(top))),
        }
    }
}

/// The cover that the bytes of a file yield, if the file could be read and
/// holds one.
pub open spec fn cover_in(bytes: Option<Seq<u8>>) -> Option<Seq<u8>> {
    match bytes {
        Some(b) => match cover_of(b) {
            Ok(image) => Some(image),
            Err(_) => None,
        },
        None => None,
    }
}

/// The state after the caller has answered a request for a file.
pub open spec fn on_file(v: ScannerView, bytes: Option<Seq<u8>>) -> ScannerView {
    on_cover(v, cover_in(bytes))
}

/// What the scanner asks for in a state.
pub open spec fn request_of(v: ScannerView) -> ScanRequestView {
    if v.stack.len() == 0 {
        ScanRequestView::Nothing
    } else {
        let top = v.stack.last();
        match v.phase {
            Phase::Listing => ScanRequestView::ListDir { path: top.location },
            Phase::Reading => if top.cursor < top.entries.len() {
                ScanRequestView::ReadFile {
                    folder: top.location,
                    file_name: top.entries[top.cursor as int].name,
                }
            } else {
                ScanRequestView::Nothing
            },
            _ => ScanRequestView::Nothing,
        }
    }
}

/// What a scan has come to: the catalog of the tree once it is done, an
/// I/O error once it has failed, nothing while it is under way.
pub open spec fn outcome_of(v: ScannerView) -> Option<Result<CatalogView, ComicError>> {
    match v.phase {
        Phase::Done => if v.stack.len() == 1 {
            Some(Ok(CatalogView { entries: v.index, root: v.stack[0].folder }))
        } else {
            None
        },
        Phase::Failed => Some(Err(ComicError::IoError)),
        _ => None,
    }
}

/// The stack is in order: the scan stands in some directory, no frame's
/// cursor lies behind its listing, and every frame but the innermost stands
/// at the directory that the next frame is for.
pub open spec fn stack_in_order(stack: Seq<FrameView>) -> bool {
    &&& stack.len() >= 1
    &&& forall|k: int| 0 <= k < stack.len() ==> (#[trigger] stack[k]).cursor <= stack[k].entries.len()
    &&& forall|k: int|
        0 <= k < stack.len() - 1 ==> (#[trigger] stack[k]).cursor < stack[k].entries.len()
            && stack[k].entries[stack[k].cursor as int].is_dir
}

/// Every frame knows where its directory lies: the outermost at the root,
/// and every other in the directory of the frame above it, under the name of
/// the entry that that frame stands at.
pub open spec fn locations_in_order(stack: Seq<FrameView>) -> bool {
    &&& stack.len() > 0 ==> stack[0].location == Seq::<Seq<char>>::empty()
    &&& forall|k: int| 1 <= k < stack.len() ==> #[trigger] lies_below(stack, k)
}

/// The frame at `depth` lies in the directory of the frame above it, under
/// the name of the entry that that frame stands at.
pub open spec fn lies_below(stack: Seq<FrameView>, depth: int) -> bool {
    stack[depth].location == stack[depth - 1].location.push(
        stack[depth - 1].entries[stack[depth - 1].cursor as int].name,
    )
}

impl ScannerView {
    /// The state is one that a scan can be in.
    pub open spec fn wf(self) -> bool {
        &&& stack_in_order(self.stack)
        &&& locations_in_order(self.stack)
        &&& distinct_ids(self.index)
        &&& match self.phase {
            Phase::Listing => self.stack.last().entries.len() == 0,
            Phase::Reading => {
                let top = self.stack.last();
                &&& top.cursor < top.entries.len()
                &&& !top.entries[top.cursor as int].is_dir
                &&& is_comic_name(top.entries[top.cursor as int].name)
            },
            Phase::Done => self.stack.len() == 1 && self.stack[0].cursor
                == self.stack[0].entries.len(),
            Phase::Failed => true,
        }
    }
}

/// Another frame in the place of the innermost, with its cursor within its
/// listing, keeps the stack in order.
pub proof fn lemma_moved_in_order(stack: Seq<FrameView>, top: FrameView)
    requires
        stack_in_order(stack),
        top.cursor <= top.entries.len(),
    ensures
        stack_in_order(stack.drop_last().push(top)),
{
    let next = stack.drop_last().push(top);
    assert forall|k: int| 0 <= k < next.len() implies (#[trigger] next[k]).cursor
        <= next[k].entries.len() by {
        if k < next.len() - 1 {
            assert(next[k] == stack[k]);
        }
    }
    assert forall|k: int| 0 <= k < next.len() - 1 implies (#[trigger] next[k]).cursor
        < next[k].entries.len() && next[k].entries[next[k].cursor as int].is_dir by {
        assert(next[k] == stack[k]);
    }
}

/// Leaving the innermost directory, with another frame in the place of the
/// one above it, keeps the stack in order.
pub proof fn lemma_left_in_order(stack: Seq<FrameView>, parent: FrameView)
    requires
        stack_in_order(stack),
        stack.len() > 1,
        parent.cursor <= parent.entries.len(),
    ensures
        stack_in_order(stack.drop_last().drop_last().push(parent)),
{
    let below = stack.drop_last();
    assert forall|k: int| 0 <= k < below.len() implies (#[trigger] below[k]).cursor
        <= below[k].entries.len() by {
        assert(below[k] == stack[k]);
    }
    assert forall|k: int| 0 <= k < below.len() - 1 implies (#[trigger] below[k]).cursor
        < below[k].entries.len() && below[k].entries[below[k].cursor as int].is_dir by {
        assert(below[k] == stack[k]);
    }
    lemma_moved_in_order(below, parent);
}

/// Entering the directory that the innermost frame stands at keeps the
/// stack in order.
pub proof fn lemma_entered_in_order(stack: Seq<FrameView>, child: FrameView)
    requires
        stack_in_order(stack),
        stack.last().cursor < stack.last().entries.len(),
        stack.last().entries[stack.last().cursor as int].is_dir,
        child.cursor <= child.entries.len(),
    ensures
        stack_in_order(stack.push(child)),
{
    let next = stack.push(child);
    assert forall|k: int| 0 <= k < next.len() implies (#[trigger] next[k]).cursor
        <= next[k].entries.len() by {
        if k < stack.len() {
            assert(next[k] == stack[k]);
        }
    }
    assert forall|k: int| 0 <= k < next.len() - 1 implies (#[trigger] next[k]).cursor
        < next[k].entries.len() && next[k].entries[next[k].cursor as int].is_dir by {
        assert(next[k] == stack[k]);
    }
}

/// Running on from a stack in order with distinct identifiers ends in a
/// state that a scan can be in, with the index as it was.
pub proof fn lemma_settle(v: ScannerView)
    requires
        stack_in_order(v.stack),
        locations_in_order(v.stack),
        distinct_ids(v.index),
    ensures
        settle(v).wf(),
        settle(v).index == v.index,
        settle(v).phase != Phase::Failed,
    decreases v.stack.len(), remaining(v),
{
    let top = v.stack.last();
    if top.cursor >= top.entries.len() {
        if v.stack.len() > 1 {
            let parent = attach(v.stack[v.stack.len() - 2], top.folder);
            lemma_left_in_order(v.stack, parent);
            lemma_locations_after_leaving(v.stack, parent);
            lemma_settle(ScannerView { stack: v.stack.drop_last().drop_last().push(parent), ..v });
        }
    } else {
        let entry = top.entries[top.cursor as int];
        if entry.is_dir {
            lemma_entered_in_order(v.stack, child_frame(top, entry.name));
            lemma_locations_after_entering(v.stack, child_frame(top, entry.name));
        } else if !is_comic_name(entry.name) {
            lemma_moved_in_order(v.stack, advance(top));
            lemma_locations_after_moving(v.stack, advance(top));
            lemma_settle(with_top(v, advance(top)));
        }
    }
}

/// Another frame for the same directory in the place of the innermost keeps
/// the locations in order.
pub proof fn lemma_locations_after_moving(stack: Seq<FrameView>, top: FrameView)
    requires
        locations_in_order(stack),
        stack.len() > 0,
        top.location == stack.last().location,
    ensures
        locations_in_order(stack.drop_last().push(top)),
{
    let next = stack.drop_last().push(top);
    assert forall|k: int| 1 <= k < next.len() implies #[trigger] lies_below(next, k) by {
        assert(lies_below(stack, k));
        assert(next[k - 1] == stack[k - 1]);
        assert(next[k].location == stack[k].location);
    }
}

/// Leaving the innermost directory, with another frame for the directory
/// above in the place of that one's, keeps the locations in order.
pub proof fn lemma_locations_after_leaving(stack: Seq<FrameView>, parent: FrameView)
    requires
        locations_in_order(stack),
        stack.len() > 1,
        parent.location == stack[stack.len() - 2].location,
    ensures
        locations_in_order(stack.drop_last().drop_last().push(parent)),
{
    let next = stack.drop_last().drop_last().push(parent);
    assert forall|k: int| 1 <= k < next.len() implies #[trigger] lies_below(next, k) by {
        assert(lies_below(stack, k));
        assert(next[k - 1] == stack[k - 1]);
        assert(next[k].location == stack[k].location);
    }
}

/// Entering the directory that the innermost frame stands at keeps the
/// locations in order.
pub proof fn lemma_locations_after_entering(stack: Seq<FrameView>, child: FrameView)
    requires
        locations_in_order(stack),
        stack.len() > 0,
        child.location == stack.last().location.push(
            stack.last().entries[stack.last().cursor as int].name,
        ),
    ensures
        locations_in_order(stack.push(child)),
{
    let next = stack.push(child);
    assert forall|k: int| 1 <= k < next.len() implies #[trigger] lies_below(next, k) by {
        assert(next[k - 1] == stack[k - 1]);
        if k < stack.len() {
            assert(lies_below(stack, k));
            assert(next[k] == stack[k]);
        }
    }
}

/// The views of a stack of frames, frame by frame.
spec fn frames_view(v: Seq<Frame>) -> Seq<FrameView> {
    Seq::new(v.len(), |i: int| v[i]@)
}

/// What the caller handed over as a listing, as mathematical values.
pub open spec fn listing_answer(answer: Option<Vec<DirEntry>>) -> Option<Seq<DirEntryView>> {
    match answer {
        Some(entries) => Some(listing_view(entries@)),
        None => None,
    }
}

/// What the caller handed over as a cover, as mathematical values.
pub open spec fn cover_answer(answer: Option<CoverImage>) -> Option<Seq<u8>> {
    match answer {
        Some(image) => Some(image@),
        None => None,
    }
}

/// What the caller handed over as the bytes of a file, as mathematical
/// values.
pub open spec fn file_answer(answer: Option<Vec<u8>>) -> Option<Seq<u8>> {
    match answer {
        Some(bytes) => Some(bytes@),
        None => None,
    }
}

/// A scan under way.
#[derive(Debug)]
pub struct Scanner {
    stack: Vec<Frame>,
    entries: Vec<Entry>,
    phase: Phase,
}

/// The state that a scanner with these parts is in.
spec fn state_of(stack: Seq<Frame>, entries: Seq<Entry>, phase: Phase) -> ScannerView {
    ScannerView { stack: frames_view(stack), index: entry_views(entries), phase: phase }
}

impl View for Scanner {
    type V = ScannerView;

    closed spec fn view(&self) -> ScannerView {
        state_of(self.stack@, self.entries@, self.phase)
    }
}

/// Runs a scan on to the next thing that it has to wait for.
fn settled(frames: Vec<Frame>, entries: Vec<Entry>, phase: Phase) -> (r: Scanner)
    requires
        stack_in_order(frames_view(frames@)),
        locations_in_order(frames_view(frames@)),
        distinct_ids(entry_views(entries@)),
    ensures
        r@ == settle(state_of(frames@, entries@, phase)),
{
    let ghost start = state_of(frames@, entries@, phase);
    let mut stack = frames;
    proof {
        lemma_settle(start);
    }
    loop
        invariant
            start == state_of(frames@, entries@, phase),
            stack_in_order(frames_view(stack@)),
            settle(state_of(stack@, entries@, phase)) == settle(start),
            settle(start).wf(),
        decreases stack.len(), remaining(state_of(stack@, entries@, phase)),
    {
        let ghost before = state_of(stack@, entries@, phase);
        let mut top = stack.pop().unwrap();
        assert(top@ == before.stack.last());
        assert(frames_view(stack@) =~= before.stack.drop_last());
        if top.cursor >= top.entries.len() {
            if stack.len() == 0 {
                stack.push(top);
                assert(frames_view(stack@) =~= before.stack);
                return Scanner { stack, entries, phase: Phase::Done };
            }
            let mut parent = stack.pop().unwrap();
            assert(parent@ == before.stack[before.stack.len() - 2]);
            assert(frames_view(stack@) =~= before.stack.drop_last().drop_last());
            assert(parent@.cursor < parent@.entries.len());
            assert(parent.cursor < parent.entries.len());
            if top.folder.is_kept() {
                parent.folder.add_subfolder(top.folder);
            }
            parent.cursor = parent.cursor + 1;
            stack.push(parent);
            assert(frames_view(stack@) =~= before.stack.drop_last().drop_last().push(
                attach(before.stack[before.stack.len() - 2], before.stack.last().folder),
            ));
            proof {
                lemma_left_in_order(
                    before.stack,
                    attach(before.stack[before.stack.len() - 2], before.stack.last().folder),
                );
            }
        } else {
            assert(top@.entries[top.cursor as int] == top.entries@[top.cursor as int]@);
            if top.entries[top.cursor].is_dir {
                let name = top.entries[top.cursor].name.clone();
                let path = clone_texts(&top.location);
                let mut location = clone_texts(&top.location);
                location.push(name.clone());
                assert(texts(location@) =~= top@.location.push(name@));
                let child = Frame {
                    folder: Folder::empty(name, path),
                    location,
                    entries: Vec::new(),
                    cursor: 0,
                };
                assert(child@.entries =~= seq![]);
                assert(child@ == child_frame(top@, name@));
                stack.push(top);
                stack.push(child);
                assert(frames_view(stack@) =~= before.stack.push(child@));
                return Scanner { stack, entries, phase: Phase::Listing };
            } else if is_comic_file(top.entries[top.cursor].name.as_str()) {
                stack.push(top);
                assert(frames_view(stack@) =~= before.stack);
                return Scanner { stack, entries, phase: Phase::Reading };
            } else {
                top.cursor = top.cursor + 1;
                stack.push(top);
                assert(frames_view(stack@) =~= with_top(before, advance(before.stack.last())).stack);
                proof {
                    lemma_moved_in_order(before.stack, advance(before.stack.last()));
                }
            }
        }
    }
}

impl Scanner {
    /// Every scanner is in a state that a scan can be in.
    #[verifier::type_invariant]
    spec fn is_wf(self) -> bool {
        self@.wf()
    }

    /// A scan at its start: at the root, waiting for its listing.
    pub fn new() -> (r: Scanner)
        ensures
            r@ == start(),
            r@.wf(),
    {
        let mut stack: Vec<Frame> = Vec::new();
        let frame = Frame {
            folder: Folder::root(),
            location: Vec::new(),
            entries: Vec::new(),
            cursor: 0,
        };
        assert(frame@.location =~= seq![]);
        assert(frame@.entries =~= seq![]);
        stack.push(frame);
        let entries: Vec<Entry> = Vec::new();
        assert(frames_view(stack@) =~= seq![root_frame()]);
        assert(entry_views(entries@) =~= seq![]);
        Scanner { stack, entries, phase: Phase::Listing }
    }

    /// Where the scan stands.
    pub fn phase(&self) -> (p: Phase)
        ensures
            p == self@.phase,
    {
        self.phase
    }

    /// What the scanner waits for.
    pub fn request(&self) -> (r: ScanRequest)
        ensures
            r@ == request_of(self@),
    {
        let n: usize = self.stack.len();
        if n == 0 {
            return ScanRequest::Nothing;
        }
        let top = &self.stack[n - 1];
        assert(self@.stack.last() == top@);
        match self.phase {
            Phase::Listing => ScanRequest::ListDir { path: clone_texts(&top.location) },
            Phase::Reading => {
                if top.cursor < top.entries.len() {
                    assert(top@.entries[top.cursor as int] == top.entries@[top.cursor as int]@);
                    ScanRequest::ReadFile {
                        folder: clone_texts(&top.location),
                        file_name: top.entries[top.cursor].name.clone(),
                    }
                } else {
                    ScanRequest::Nothing
                }
            },
            _ => ScanRequest::Nothing,
        }
    }

    /// Takes the answer to a request for a listing: the entries of the
    /// directory, or nothing where it could not be read.
    pub fn on_listing(self, answer: Option<Vec<DirEntry>>) -> (next: Scanner)
        ensures
            next@ == on_listing(self@, listing_answer(answer)),
            next@.wf(),
    {
        proof {
            use_type_invariant(&self);
        }
        let ghost before = self@;
        let Scanner { stack, entries, phase } = self;
        let mut stack = stack;
        if phase != Phase::Listing || stack.len() == 0 {
            return Scanner { stack, entries, phase };
        }
        match answer {
            None => Scanner { stack, entries, phase: Phase::Failed },
            Some(listing) => {
                let mut top = stack.pop().unwrap();
                assert(top@ == before.stack.last());
                assert(frames_view(stack@) =~= before.stack.drop_last());
                top.entries = listing;
                top.cursor = 0;
                stack.push(top);
                proof {
                    let listed = with_top(
                        before,
                        FrameView {
                            entries: listing_view(listing@),
                            cursor: 0,
                            ..before.stack.last()
                        },
                    );
                    assert(frames_view(stack@) =~= listed.stack);
                    assert(state_of(stack@, entries@, phase) == listed);
                    lemma_moved_in_order(before.stack, listed.stack.last());
                    lemma_locations_after_moving(before.stack, listed.stack.last());
                    lemma_settle(listed);
                }
                settled(stack, entries, phase)
            },
        }
    }

    /// Takes the cover of the comic that the scan is at, or nothing where
    /// the file has none.
    pub fn on_cover(self, cover: Option<CoverImage>) -> (next: Scanner)
        ensures
            next@ == on_cover(self@, cover_answer(cover)),
            next@.wf(),
    {
        proof {
            use_type_invariant(&self);
        }
        let ghost before = self@;
        let ghost given = cover_answer(cover);
        let Scanner { stack, entries, phase } = self;
        let mut stack = stack;
        let mut entries = entries;
        if phase != Phase::Reading || stack.len() == 0 {
            return Scanner { stack, entries, phase };
        }
        let mut top = stack.pop().unwrap();
        assert(top@ == before.stack.last());
        assert(frames_view(stack@) =~= before.stack.drop_last());
        if top.cursor >= top.entries.len() {
            stack.push(top);
            assert(frames_view(stack@) =~= before.stack);
            return Scanner { stack, entries, phase };
        }
        assert(top@.entries[top.cursor as int] == top.entries@[top.cursor as int]@);
        match cover {
            Some(image) => {
                let comic = Comic::at(
                    clone_texts(&top.location),
                    top.entries[top.cursor].name.clone(),
                );
                top.folder.add_comic(comic.clone());
                put_entry(&mut entries, Entry { comic, cover: image });
            },
            None => {},
        }
        top.cursor = top.cursor + 1;
        stack.push(top);
        proof {
            let old_top = before.stack.last();
            let comic = comic_at(old_top.location, old_top.entries[old_top.cursor as int].name);
            let moved = match given {
                Some(image) => ScannerView {
                    stack: before.stack.drop_last().push(
                        advance(FrameView { folder: with_comic(old_top.folder, comic), ..old_top }),
                    ),
                    index: put(before.index, EntryView { comic: comic, cover: image }),
                    ..before
                },
                None => with_top(before, advance(old_top)),
            };
            assert(frames_view(stack@) =~= moved.stack);
            assert(state_of(stack@, entries@, phase) == moved);
            lemma_moved_in_order(before.stack, moved.stack.last());
            lemma_locations_after_moving(before.stack, moved.stack.last());
            if let Some(image) = given {
                lemma_put(before.index, EntryView { comic: comic, cover: image });
            }
            lemma_settle(moved);
        }
        settled(stack, entries, phase)
    }

    /// Takes the answer to a request for a file: its bytes, or nothing
    /// where it could not be read.
    pub fn on_file(self, bytes: Option<Vec<u8>>) -> (next: Scanner)
        ensures
            next@ == on_file(self@, file_answer(bytes)),
            next@.wf(),
    {
        let cover = match bytes {
            Some(b) => match extract_cover(b) {
                Ok(image) => Some(image),
                Err(_) => None,
            },
            None => None,
        };
        self.on_cover(cover)
    }

    /// What the scan has come to, once it has ended.
    pub fn finish(self) -> (r: Option<Result<Catalog, ComicError>>)
        ensures
            match r {
                Some(Ok(catalog)) => outcome_of(self@) == Some(
                    Ok::<CatalogView, ComicError>(catalog@),
                ) && catalog@.wf(),
                Some(Err(e)) => outcome_of(self@) == Some(Err::<CatalogView, ComicError>(e)),
                None => outcome_of(self@) is None,
            },
    {
        proof {
            use_type_invariant(&self);
        }
        let ghost v = self@;
        let Scanner { stack, entries, phase } = self;
        let mut stack = stack;
        match phase {
            Phase::Done => {
                let root = stack.pop().unwrap();
                assert(root@ == v.stack[0]);
                Some(Ok(Catalog::assemble(entries, root.folder)))
            },
            Phase::Failed => Some(Err(ComicError::IoError)),
            _ => None,
        }
    }
}

} // verus!
