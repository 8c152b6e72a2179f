//! The sequential scanner as a state machine. The caller walks the
//! filesystem and reports what it finds, one event at a time; the scanner
//! keeps the directories that are still open, decides what each entry
//! contributes, and says what the caller is to do next.

use vstd::prelude::*;
use crate::classify::FileInfo;
use crate::error::ScanError;
use crate::node::{all_sound, lemma_total_size_push, total_size, views, DiskItem, NodeView};
use crate::progress::{ProgressSnapshot, Throttle};

verus! {

/// What the caller found at the place where the walk stands.
#[derive(Debug)]
pub enum Event {
    /// The next entry of the directory being listed, with its classification
    /// or the reason why it could not be classified.
    Entry { path: String, info: Result<FileInfo, ScanError> },
    /// The directory being listed has no more entries.
    EndOfDirectory,
    /// The directory that was to be listed could not be opened.
    ListingFailed { error: ScanError },
}

/// The model of an event.
pub enum EventView {
    Entry { path: Seq<char>, info: Result<FileInfo, ScanError> },
    EndOfDirectory,
    ListingFailed { error: ScanError },
}

impl View for Event {
    type V = EventView;

    /// The event with its path as plain text.
    open spec fn view(&self) -> EventView {
        match *self {
            Event::Entry { path, info } => EventView::Entry { path: path@, info },
            Event::EndOfDirectory => EventView::EndOfDirectory,
            Event::ListingFailed { error } => EventView::ListingFailed { error },
        }
    }
}

/// What the caller is to do after an event.
#[derive(Debug)]
pub enum Action {
    /// The entry is a directory of the scan: list it next.
    Descend,
    /// The entry was a file and has been counted: this is the progress.
    Notify { progress: ProgressSnapshot },
    /// Go on with the next entry of the directory that is now innermost.
    Continue,
    /// The root has been closed: the finished tree and the last snapshot.
    Finished { tree: DiskItem, progress: ProgressSnapshot },
    /// The root could not be listed: the scan has failed.
    Failed { error: ScanError },
}

/// The model of an action.
pub enum ActionView {
    Descend,
    Notify { scanned: nat, total: nat },
    Continue,
    Finished { tree: NodeView, scanned: nat, total: nat },
    Failed { error: ScanError },
}

impl View for Action {
    type V = ActionView;

    /// The action with its tree and its counts as plain values.
    open spec fn view(&self) -> ActionView {
        match *self {
            Action::Descend => ActionView::Descend,
            Action::Notify { progress } => ActionView::Notify {
                scanned: progress.scanned as nat,
                total: progress.total as nat,
            },
            Action::Continue => ActionView::Continue,
            Action::Finished { tree, progress } => ActionView::Finished {
                tree: tree@,
                scanned: progress.scanned as nat,
                total: progress.total as nat,
            },
            Action::Failed { error } => ActionView::Failed { error },
        }
    }
}

/// The model of a directory that is still being listed.
pub struct FrameView {
    pub path: Seq<char>,
    pub children: Seq<NodeView>,
}

/// The model of a scan under way.
pub struct ScanView {
    /// The volume of the root; the scan stays on it.
    pub root_volume: u64,
    /// The bytes expected for the root.
    pub known_total: u64,
    /// The bytes of all files counted so far.
    pub scanned: nat,
    /// The directories being listed, the root first, the innermost last.
    pub stack: Seq<FrameView>,
}

/// The bytes gathered so far in the directories that are still open.
pub open spec fn open_bytes(stack: Seq<FrameView>) -> nat
    decreases stack.len(),
{
    if stack.len() == 0 {
        0
    } else {
        open_bytes(stack.drop_last()) + total_size(stack.last().children)
    }
}

/// Opening one more directory adds what it has gathered.
pub proof fn lemma_open_bytes_push(stack: Seq<FrameView>, frame: FrameView)
    ensures
        open_bytes(stack.push(frame)) == open_bytes(stack) + total_size(frame.children),
{
    assert(stack.push(frame).drop_last() =~= stack);
}

impl ScanView {
    /// The state in which a scan of the directory `root_path` starts.
    pub open spec fn initial(root_path: Seq<char>, root_volume: u64, known_total: u64) -> ScanView {
        ScanView {
            root_volume,
            known_total,
            scanned: 0,
            stack: seq![FrameView { path: root_path, children: Seq::empty() }],
        }
    }

    /// The state in which no scan is under way: no directory is open and
    /// nothing has been counted.
    pub open spec fn idle() -> ScanView {
        ScanView { root_volume: 0, known_total: 0, scanned: 0, stack: Seq::empty() }
    }

    /// Whether the scan is still under way.
    pub open spec fn active(self) -> bool {
        self.stack.len() > 0
    }

    /// The innermost open directory.
    pub open spec fn top(self) -> FrameView {
        self.stack.last()
    }

    /// Every node gathered so far is sound, and no open directory holds
    /// bytes that were not counted.
    pub open spec fn wf(self) -> bool {
        &&& forall|i: int| 0 <= i < self.stack.len() ==> all_sound((#[trigger] self.stack[i]).children)
        &&& open_bytes(self.stack) <= self.scanned
    }

    /// Whether the event can be taken: the scan is under way, and the bytes
    /// of a file still fit in the counter.
    pub open spec fn accepts(self, event: EventView) -> bool {
        &&& self.active()
        &&& match event {
            EventView::Entry { path, info: Ok(FileInfo::File { size }) } => self.scanned + size
                <= u64::MAX,
            _ => true,
        }
    }

    /// The state with `node` appended to the innermost open directory.
    pub open spec fn with_child(self, node: NodeView) -> ScanView {
        ScanView {
            stack: self.stack.drop_last().push(
                FrameView { path: self.top().path, children: self.top().children.push(node) },
            ),
            ..self
        }
    }

    /// The state with the innermost open directory taken away.
    pub open spec fn without_top(self) -> ScanView {
        ScanView { stack: self.stack.drop_last(), ..self }
    }

    /// The state with a fresh innermost directory at `path`.
    pub open spec fn with_frame(self, path: Seq<char>) -> ScanView {
        ScanView { stack: self.stack.push(FrameView { path, children: Seq::empty() }), ..self }
    }

    /// The state after an event, and what the caller is to do.
    ///
    /// A file is appended to the innermost directory and counted. A directory
    /// on the root's volume is opened. A directory on another volume, an entry
    /// that is neither, and an entry that could not be classified leave the
    /// state as it is. At the end of a listing the directory becomes a node of
    /// its parent; the root becomes the result. A directory that could not be
    /// listed is dropped; for the root that is the failure of the scan.
    pub open spec fn next(self, event: EventView) -> (ScanView, ActionView) {
        match event {
            EventView::Entry { path, info } => match info {
                Ok(FileInfo::File { size }) => {
                    let scanned = self.scanned + size as nat;
                    (
                        ScanView { scanned, ..self.with_child(NodeView::file(path, size as nat)) },
                        ActionView::Notify { scanned, total: self.known_total as nat },
                    )
                },
                Ok(FileInfo::Directory { volume_id }) => if volume_id == self.root_volume {
                    (self.with_frame(path), ActionView::Descend)
                } else {
                    (self, ActionView::Continue)
                },
                _ => (self, ActionView::Continue),
            },
            EventView::EndOfDirectory => {
                let node = NodeView::directory(self.top().path, self.top().children);
                let rest = self.without_top();
                if rest.active() {
                    (rest.with_child(node), ActionView::Continue)
                } else {
                    (
                        rest,
                        ActionView::Finished {
                            tree: node,
                            scanned: self.known_total as nat,
                            total: self.known_total as nat,
                        },
                    )
                }
            },
            EventView::ListingFailed { error } => {
                let rest = self.without_top();
                if rest.active() {
                    (rest, ActionView::Continue)
                } else {
                    (rest, ActionView::Failed { error })
                }
            },
        }
    }
}

/// A step never lowers the count of bytes, so the snapshots of one scan
/// come in the order of their counts.
pub proof fn law_scanned_never_decreases(state: ScanView, event: EventView)
    ensures
        state.next(event).0.scanned >= state.scanned,
{
}

/// An entry that could not be classified contributes nothing: the state
/// stays as it is and the scan goes on.
pub proof fn law_unreadable_entry_skipped(state: ScanView, path: Seq<char>, error: ScanError)
    ensures
        state.next(EventView::Entry { path, info: Err(error) }) == (state, ActionView::Continue),
{
}

/// A directory on another volume than the root is neither opened nor
/// counted: the state stays as it is.
pub proof fn law_other_volume_skipped(state: ScanView, path: Seq<char>, volume_id: u64)
    requires
        volume_id != state.root_volume,
    ensures
        state.next(EventView::Entry { path, info: Ok(FileInfo::Directory { volume_id }) }) == (
            state,
            ActionView::Continue,
        ),
{
}

/// A subdirectory that could not be listed is dropped, and the scan goes on
/// in its parent; only for the root is it the failure of the scan.
pub proof fn law_listing_failure(state: ScanView, error: ScanError)
    requires
        state.active(),
    ensures
        state.next(EventView::ListingFailed { error }).1 == (if state.stack.len() == 1 {
            ActionView::Failed { error }
        } else {
            ActionView::Continue
        }),
        state.next(EventView::ListingFailed { error }).0.stack == state.stack.drop_last(),
{
}

/// The scan finishes exactly at the end of the root's listing, and its last
/// snapshot reports the expected total as scanned, whatever was counted.
pub proof fn law_finish(state: ScanView, event: EventView)
    requires
        state.active(),
    ensures
        state.next(event).1 is Finished <==> event is EndOfDirectory && state.stack.len() == 1,
        state.next(event).1 matches ActionView::Finished { tree, scanned, total } ==> {
            &&& tree == NodeView::directory(state.top().path, state.top().children)
            &&& scanned == state.known_total
            &&& total == state.known_total
        },
{
}

/// Every step keeps the model of a scan well formed, and a tree that it
/// finishes with is sound: at every directory in it the size is the sum of
/// the sizes of the children.
pub proof fn law_step_keeps_sound(state: ScanView, event: EventView)
    requires
        state.wf(),
        state.active(),
    ensures
        state.next(event).0.wf(),
        state.next(event).1 matches ActionView::Finished { tree, .. } ==> tree.sound(),
{
    let top = state.top();
    let below = state.stack.drop_last();
    assert(state.stack =~= below.push(top));
    lemma_open_bytes_push(below, top);
    assert(all_sound(top.children));
    assert forall|i: int| 0 <= i < below.len() implies all_sound((#[trigger] below[i]).children) by {
        assert(below[i] == state.stack[i]);
    }
    match event {
        EventView::Entry { path, info } => match info {
            Ok(FileInfo::File { size }) => {
                let node = NodeView::file(path, size as nat);
                lemma_child_keeps_sound(state, node);
            },
            Ok(FileInfo::Directory { volume_id }) => {
                if volume_id == state.root_volume {
                    let frame = FrameView { path, children: Seq::empty() };
                    lemma_open_bytes_push(state.stack, frame);
                    let after = state.with_frame(path);
                    assert forall|i: int| 0 <= i < after.stack.len() implies all_sound(
                        (#[trigger] after.stack[i]).children,
                    ) by {
                        if i < state.stack.len() {
                            assert(after.stack[i] == state.stack[i]);
                        }
                    }
                }
            },
            _ => {},
        },
        EventView::EndOfDirectory => {
            let node = NodeView::directory(top.path, top.children);
            let rest = state.without_top();
            if rest.active() {
                lemma_child_keeps_sound(rest, node);
            }
        },
        EventView::ListingFailed { error } => {},
    }
}

/// Appending a sound node keeps every open directory sound and adds the
/// node's size to the bytes that the open directories hold.
proof fn lemma_child_keeps_sound(state: ScanView, node: NodeView)
    requires
        state.active(),
        forall|i: int| 0 <= i < state.stack.len() ==> all_sound((#[trigger] state.stack[i]).children),
        node.sound(),
    ensures
        forall|i: int|
            0 <= i < state.with_child(node).stack.len() ==> all_sound(
                (#[trigger] state.with_child(node).stack[i]).children,
            ),
        open_bytes(state.with_child(node).stack) == open_bytes(state.stack) + node.size_bytes,
{
    let top = state.top();
    let below = state.stack.drop_last();
    let after = state.with_child(node);
    assert(state.stack =~= below.push(top));
    lemma_open_bytes_push(below, top);
    lemma_open_bytes_push(below, after.top());
    lemma_total_size_push(top.children, node);
    assert forall|i: int| 0 <= i < after.stack.len() implies all_sound(
        (#[trigger] after.stack[i]).children,
    ) by {
        if i < below.len() {
            assert(after.stack[i] == state.stack[i]);
        } else {
            let kept = after.stack[i].children;
            assert forall|k: int| 0 <= k < kept.len() implies (#[trigger] kept[k]).sound() by {
                if k < top.children.len() {
                    assert(kept[k] == top.children[k]);
                }
            }
        }
    }
}

/// A directory that is still being listed, with the sum of what it holds.
#[derive(Debug)]
struct Frame {
    path: String,
    children: Vec<DiskItem>,
    total: u64,
}

impl View for Frame {
    type V = FrameView;

    /// The open directory without the sum that is kept beside it.
    closed spec fn view(&self) -> FrameView {
        FrameView { path: self.path@, children: views(self.children@) }
    }
}

impl Frame {
    /// The sum that is kept is the sum of what the directory holds.
    spec fn wf(&self) -> bool {
        self.total == total_size(views(self.children@))
    }
}

/// The models of the open directories, the root first.
spec fn frame_views(frames: Seq<Frame>) -> Seq<FrameView> {
    Seq::new(frames.len(), |i: int| frames[i]@)
}

/// The state of a sequential scan, with its invariant stated beside it.
#[derive(Debug)]
struct Core {
    root_volume: u64,
    known_total: u64,
    scanned: u64,
    stack: Vec<Frame>,
}

impl View for Core {
    type V = ScanView;

    /// The scan as plain values.
    closed spec fn view(&self) -> ScanView {
        ScanView {
            root_volume: self.root_volume,
            known_total: self.known_total,
            scanned: self.scanned as nat,
            stack: frame_views(self.stack@),
        }
    }
}

impl Core {
    /// The invariant of a scan: its model is well formed, and each open
    /// directory knows the sum of what it holds.
    spec fn wf(&self) -> bool {
        &&& self@.wf()
        &&& forall|i: int| 0 <= i < self.stack@.len() ==> (#[trigger] self.stack@[i]).wf()
    }

    /// The state in which the scan of a directory starts.
    fn begin(root_path: String, root_volume: u64, known_total: u64) -> (core: Core)
        ensures
            core.wf(),
            core@ == ScanView::initial(root_path@, root_volume, known_total),
    {
        let mut stack: Vec<Frame> = Vec::new();
        stack.push(Frame { path: root_path, children: Vec::new(), total: 0 });
        let core = Core { root_volume, known_total, scanned: 0, stack };
        proof {
            let first = core.stack@[0]@;
            assert(first.children =~= Seq::empty());
            assert(core@.stack =~= Seq::<FrameView>::empty().push(first));
            lemma_open_bytes_push(Seq::empty(), first);
        }
        core
    }

    /// The state in which no scan is under way: it stands in the place of
    /// a scan's own state while that state is taken out and changed.
    fn idle() -> (core: Core)
        ensures
            core.wf(),
            core@ == ScanView::idle(),
            !core@.active(),
    {
        let core = Core { root_volume: 0, known_total: 0, scanned: 0, stack: Vec::new() };
        proof {
            assert(core@.stack =~= Seq::empty());
        }
        core
    }

    /// Appends a finished node to the innermost open directory.
    fn push_child(&mut self, node: DiskItem)
        requires
            old(self).wf(),
            old(self)@.active(),
            node@.sound(),
            open_bytes(old(self)@.stack) + node@.size_bytes <= old(self)@.scanned,
        ensures
            final(self).wf(),
            final(self)@ == old(self)@.with_child(node@),
            open_bytes(final(self)@.stack) == open_bytes(old(self)@.stack) + node@.size_bytes,
    {
        let ghost before = self@;
        let ghost frames = self.stack@;
        let mut top = self.stack.pop().unwrap();
        let ghost below = self.stack@;
        let ghost old_top = top@;
        proof {
            assert(frames.drop_last() =~= below);
            assert(before.stack.drop_last() =~= frame_views(below));
            assert(before.stack.last() == old_top);
            assert(top.wf());
            lemma_total_size_push(old_top.children, node@);
            lemma_open_bytes_push(frame_views(below), old_top);
            assert(before.stack =~= frame_views(below).push(old_top));
        }
        let size: u64 = node.size_bytes();
        top.total = top.total + size;
        top.children.push(node);
        proof {
            assert(views(top.children@) =~= old_top.children.push(node@));
            lemma_open_bytes_push(frame_views(below), top@);
        }
        self.stack.push(top);
        proof {
            let after = self@;
            let want = before.with_child(node@);
            assert(after.stack =~= want.stack);
            assert forall|i: int| 0 <= i < after.stack.len() implies all_sound(
                (#[trigger] after.stack[i]).children,
            ) by {
                if i < below.len() {
                    assert(after.stack[i] == before.stack[i]);
                }
            }
            assert forall|i: int| 0 <= i < self.stack@.len() implies (#[trigger] self.stack@[i]).wf() by {
                if i < below.len() {
                    assert(self.stack@[i] == frames[i]);
                }
            }
        }
    }

    /// Takes the innermost open directory away.
    fn pop_frame(&mut self) -> (frame: Frame)
        requires
            old(self).wf(),
            old(self)@.active(),
        ensures
            final(self).wf(),
            final(self)@ == old(self)@.without_top(),
            frame@ == old(self)@.top(),
            frame.wf(),
            all_sound(frame@.children),
            open_bytes(final(self)@.stack) + total_size(frame@.children) == open_bytes(
                old(self)@.stack,
            ),
    {
        let ghost before = self@;
        let ghost frames = self.stack@;
        let frame = self.stack.pop().unwrap();
        proof {
            let below = self.stack@;
            assert(frames.drop_last() =~= below);
            assert(before.stack.drop_last() =~= frame_views(below));
            assert(before.stack.last() == frame@);
            assert(before.stack =~= frame_views(below).push(frame@));
            lemma_open_bytes_push(frame_views(below), frame@);
            assert forall|i: int| 0 <= i < self@.stack.len() implies all_sound(
                (#[trigger] self@.stack[i]).children,
            ) by {
                assert(self@.stack[i] == before.stack[i]);
            }
            assert forall|i: int| 0 <= i < self.stack@.len() implies (#[trigger] self.stack@[i]).wf() by {
                assert(self.stack@[i] == frames[i]);
            }
            assert(frames[frames.len() - 1].wf());
        }
        frame
    }

    /// Opens a fresh innermost directory at `path`.
    fn push_frame(&mut self, path: String)
        requires
            old(self).wf(),
        ensures
            final(self).wf(),
            final(self)@ == old(self)@.with_frame(path@),
    {
        let ghost before = self@;
        let ghost frames = self.stack@;
        let frame = Frame { path, children: Vec::new(), total: 0 };
        proof {
            assert(frame@.children =~= Seq::empty());
            lemma_open_bytes_push(before.stack, frame@);
        }
        self.stack.push(frame);
        proof {
            assert(self@.stack =~= before.with_frame(path@).stack);
            assert forall|i: int| 0 <= i < self@.stack.len() implies all_sound(
                (#[trigger] self@.stack[i]).children,
            ) by {
                if i < frames.len() {
                    assert(self@.stack[i] == before.stack[i]);
                }
            }
            assert forall|i: int| 0 <= i < self.stack@.len() implies (#[trigger] self.stack@[i]).wf() by {
                if i < frames.len() {
                    assert(self.stack@[i] == frames[i]);
                }
            }
        }
    }

    /// Takes one event and says what the caller is to do next.
    fn step(&mut self, event: Event) -> (action: Action)
        requires
            old(self).wf(),
            old(self)@.accepts(event@),
        ensures
            final(self).wf(),
            final(self)@ == old(self)@.next(event@).0,
            action@ == old(self)@.next(event@).1,
            action@ matches ActionView::Finished { tree, scanned, total } ==> tree.sound()
                && scanned == old(self)@.known_total && total == old(self)@.known_total,
            final(self)@.scanned >= old(self)@.scanned,
    {
        match event {
            Event::Entry { path, info } => match info {
                Ok(FileInfo::File { size }) => {
                    let node = DiskItem::file(path, size);
                    self.scanned = self.scanned + size;
                    self.push_child(node);
                    Action::Notify {
                        progress: ProgressSnapshot { scanned: self.scanned, total: self.known_total },
                    }
                },
                Ok(FileInfo::Directory { volume_id }) => {
                    if volume_id == self.root_volume {
                        self.push_frame(path);
                        Action::Descend
                    } else {
                        Action::Continue
                    }
                },
                _ => Action::Continue,
            },
            Event::EndOfDirectory => {
                let frame = self.pop_frame();
                let node = DiskItem::assemble(frame.path, frame.children, frame.total);
                if self.stack.len() > 0 {
                    self.push_child(node);
                    Action::Continue
                } else {
                    Action::Finished { tree: node, progress: ProgressSnapshot::complete(self.known_total) }
                }
            },
            Event::ListingFailed { error } => {
                let _ = self.pop_frame();
                if self.stack.len() > 0 {
                    Action::Continue
                } else {
                    Action::Failed { error }
                }
            },
        }
    }
}

/// A sequential scan under way.
#[derive(Debug)]
pub struct Scanner {
    core: Core,
}

impl View for Scanner {
    type V = ScanView;

    /// The scan as plain values.
    closed spec fn view(&self) -> ScanView {
        self.core@
    }
}

impl Scanner {
    /// The invariant of the type: the state of the scan is consistent.
    #[verifier::type_invariant]
    spec fn consistent(&self) -> bool {
        self.core.wf()
    }

    /// Starts the scan of a root from its classification. A root that could
    /// not be classified fails with that error, and one that is no directory
    /// with `NotADirectory`.
    pub fn start(root_path: String, root: Result<FileInfo, ScanError>, known_total: u64) -> (scan:
        Result<Scanner, ScanError>)
        ensures
            match FileInfo::scan_volume(root) {
                Ok(volume_id) => {
                    &&& scan is Ok
                    &&& scan->Ok_0@ == ScanView::initial(root_path@, volume_id, known_total)
                    &&& scan->Ok_0@.wf()
                },
                Err(error) => scan is Err && scan->Err_0 == error,
            },
    {
        match FileInfo::root_volume(root) {
            Ok(volume_id) => Ok(Scanner { core: Core::begin(root_path, volume_id, known_total) }),
            Err(error) => Err(error),
        }
    }

    /// Whether the scan is still under way.
    pub fn is_active(&self) -> (active: bool)
        ensures
            active == self@.active(),
    {
        self.core.stack.len() > 0
    }

    /// The bytes of all files counted so far.
    pub fn scanned(&self) -> (scanned: u64)
        ensures
            scanned == self@.scanned,
    {
        self.core.scanned
    }

    /// The bytes expected for the root.
    pub fn known_total(&self) -> (total: u64)
        ensures
            total == self@.known_total,
    {
        self.core.known_total
    }

    /// The volume of the root.
    pub fn root_volume(&self) -> (volume: u64)
        ensures
            volume == self@.root_volume,
    {
        self.core.root_volume
    }

    /// How many directories are being listed.
    pub fn depth(&self) -> (depth: usize)
        ensures
            depth == self@.stack.len(),
    {
        self.core.stack.len()
    }

    /// Whether `step` can take the event.
    pub fn accepts(&self, event: &Event) -> (ok: bool)
        ensures
            ok == self@.accepts(event@),
    {
        if self.core.stack.len() == 0 {
            return false;
        }
        match event {
            Event::Entry { path: _, info: Ok(FileInfo::File { size }) } => *size <= u64::MAX
                - self.core.scanned,
            _ => true,
        }
    }

    /// Takes one event and says what the caller is to do next: the state
    /// and the action are those of `ScanView::next`. A tree that the scan
    /// finishes with is sound, and the snapshot beside it reports the
    /// expected total as scanned.
    pub fn step(&mut self, event: Event) -> (action: Action)
        requires
            old(self)@.accepts(event@),
        ensures
            final(self)@ == old(self)@.next(event@).0,
            action@ == old(self)@.next(event@).1,
            action@ matches ActionView::Finished { tree, scanned, total } ==> tree.sound()
                && scanned == old(self)@.known_total && total == old(self)@.known_total,
            final(self)@.scanned >= old(self)@.scanned,
            final(self)@.wf(),
    {
        proof {
            use_type_invariant(&*self);
        }
        // The state is taken out while it changes, so that the invariant of
        // the type holds of `self` at every moment.
        let mut core = Core::idle();
        core::mem::swap(&mut self.core, &mut core);
        let action = core.step(event);
        core::mem::swap(&mut self.core, &mut core);
        action
    }
}

impl Action {
    /// The snapshot to deliver for this action at `now_ms`, if any. The
    /// progress after a file passes only when the throttle lets it; the snapshot
    /// that closes the scan always passes; nothing else is reported.
    pub fn notification(&self, throttle: &mut Throttle, now_ms: u64) -> (out: Option<ProgressSnapshot>)
        ensures
            final(throttle).interval_ms == old(throttle).interval_ms,
            match *self {
                Action::Notify { progress } => {
                    &&& out == if old(throttle).due(now_ms) {
                        Some(progress)
                    } else {
                        None
                    }
                    &&& final(throttle).last_emit_ms == if old(throttle).due(now_ms) {
                        now_ms
                    } else {
                        old(throttle).last_emit_ms
                    }
                },
                Action::Finished { tree, progress } => out == Some(progress) && *final(throttle) == *old(
                    throttle,
                ),
                _ => out is None && *final(throttle) == *old(throttle),
            },
    {
        match self {
            Action::Notify { progress } => {
                if throttle.should_emit(now_ms) {
                    Some(*progress)
                } else {
                    None
                }
            },
            Action::Finished { tree: _, progress } => Some(*progress),
            _ => None,
        }
    }
}

} // verus!
