//! What a scan is to compute, stated on a walk as a whole: the entries that
//! a walk of a directory finds, the tree that they amount to, and the proof
//! that the scanner builds that tree from the events of the walk.

use vstd::prelude::*;
use crate::classify::FileInfo;
use crate::error::ScanError;
use crate::node::{lemma_total_size_push, total_size, NodeView};
use crate::scan::{ActionView, EventView, FrameView, ScanView};

verus! {

/// What a walk finds at one entry of a directory.
pub enum Observed {
    /// A file and its length.
    File { path: Seq<char>, size: u64 },
    /// A directory, its volume, and its entries or why it could not be listed.
    Directory { path: Seq<char>, volume_id: u64, listing: Result<Seq<Observed>, ScanError> },
    /// An entry that is neither.
    Other { path: Seq<char> },
    /// An entry that could not be classified.
    Unreadable { path: Seq<char>, error: ScanError },
}

/// Whether a walk that stays on `root_volume` lists the entry as a directory.
pub open spec fn entered(entry: Observed, root_volume: u64) -> bool {
    entry matches Observed::Directory { volume_id, listing, .. } && volume_id == root_volume
        && listing is Ok
}

/// The node that an entry amounts to: one for a file, one for a directory
/// on the root's volume that could be listed, none for anything else.
pub open spec fn built(entry: Observed, root_volume: u64) -> Seq<NodeView>
    decreases entry,
{
    match entry {
        Observed::File { path, size } => seq![NodeView::file(path, size as nat)],
        Observed::Directory { path, volume_id, listing } => if volume_id == root_volume {
            match listing {
                Ok(entries) => seq![NodeView::directory(path, built_all(entries, root_volume))],
                Err(_) => Seq::empty(),
            }
        } else {
            Seq::empty()
        },
        _ => Seq::empty(),
    }
}

/// The nodes that the entries of one directory amount to, in their order.
pub open spec fn built_all(entries: Seq<Observed>, root_volume: u64) -> Seq<NodeView>
    decreases entries,
{
    if entries.len() == 0 {
        Seq::empty()
    } else {
        built_all(entries.drop_last(), root_volume) + built(entries.last(), root_volume)
    }
}

/// The bytes of the files that a walk of the entry counts.
pub open spec fn counted(entry: Observed, root_volume: u64) -> nat
    decreases entry,
{
    match entry {
        Observed::File { path, size } => size as nat,
        Observed::Directory { path, volume_id, listing } => if volume_id == root_volume {
            match listing {
                Ok(entries) => counted_all(entries, root_volume),
                Err(_) => 0,
            }
        } else {
            0
        },
        _ => 0,
    }
}

/// The bytes of the files that a walk of the entries counts.
pub open spec fn counted_all(entries: Seq<Observed>, root_volume: u64) -> nat
    decreases entries,
{
    if entries.len() == 0 {
        0
    } else {
        counted_all(entries.drop_last(), root_volume) + counted(entries.last(), root_volume)
    }
}

impl Observed {
    /// The path of the entry.
    pub open spec fn path(self) -> Seq<char> {
        match self {
            Observed::File { path, size } => path,
            Observed::Directory { path, volume_id, listing } => path,
            Observed::Other { path } => path,
            Observed::Unreadable { path, error } => path,
        }
    }

    /// The classification of the entry, or why it has none.
    pub open spec fn info(self) -> Result<FileInfo, ScanError> {
        match self {
            Observed::File { path, size } => Ok(FileInfo::File { size }),
            Observed::Directory { path, volume_id, listing } => Ok(
                FileInfo::Directory { volume_id },
            ),
            Observed::Other { path } => Ok(FileInfo::Other),
            Observed::Unreadable { path, error } => Err(error),
        }
    }
}

/// The event by which a walk reports an entry.
pub open spec fn reported(entry: Observed) -> EventView {
    EventView::Entry { path: entry.path(), info: entry.info() }
}

/// The events of a walk of one entry: its classification and, for a
/// directory on the root's volume, the events of its entries up to the end
/// of the listing, or the failure to list it.
pub open spec fn events_of(entry: Observed, root_volume: u64) -> Seq<EventView>
    decreases entry,
{
    match entry {
        Observed::Directory { path, volume_id, listing } => if volume_id == root_volume {
            match listing {
                Ok(entries) => seq![reported(entry)] + events_in(entries, root_volume)
                    + seq![EventView::EndOfDirectory],
                Err(error) => seq![reported(entry), EventView::ListingFailed { error }],
            }
        } else {
            seq![reported(entry)]
        },
        _ => seq![reported(entry)],
    }
}

/// The events of a walk of the entries of one directory.
pub open spec fn events_in(entries: Seq<Observed>, root_volume: u64) -> Seq<EventView>
    decreases entries,
{
    if entries.len() == 0 {
        Seq::empty()
    } else {
        events_in(entries.drop_last(), root_volume) + events_of(entries.last(), root_volume)
    }
}

/// The state after a sequence of events.
pub open spec fn run(state: ScanView, events: Seq<EventView>) -> ScanView
    decreases events.len(),
{
    if events.len() == 0 {
        state
    } else {
        run(state, events.drop_last()).next(events.last()).0
    }
}

impl ScanView {
    /// The state with `nodes` appended to the innermost open directory and
    /// `bytes` more counted.
    pub open spec fn gained(self, nodes: Seq<NodeView>, bytes: nat) -> ScanView {
        ScanView {
            scanned: self.scanned + bytes,
            stack: self.stack.drop_last().push(
                FrameView { path: self.top().path, children: self.top().children + nodes },
            ),
            ..self
        }
    }
}

/// Running two sequences of events one after the other is running their
/// concatenation.
pub proof fn lemma_run_concat(state: ScanView, first: Seq<EventView>, second: Seq<EventView>)
    ensures
        run(state, first + second) == run(run(state, first), second),
    decreases second.len(),
{
    if second.len() == 0 {
        assert(first + second =~= first);
    } else {
        lemma_run_concat(state, first, second.drop_last());
        assert((first + second).drop_last() =~= first + second.drop_last());
        assert((first + second).last() == second.last());
    }
}

/// Running one event is taking one step.
pub proof fn lemma_run_one(state: ScanView, event: EventView)
    ensures
        run(state, seq![event]) == state.next(event).0,
{
    assert(seq![event].drop_last() =~= Seq::<EventView>::empty());
    assert(seq![event].last() == event);
    assert(run(state, Seq::<EventView>::empty()) == state);
}

/// The sum of the sizes of two sequences of nodes is the sum of their sums.
pub proof fn lemma_total_size_concat(first: Seq<NodeView>, second: Seq<NodeView>)
    ensures
        total_size(first + second) == total_size(first) + total_size(second),
    decreases second.len(),
{
    if second.len() == 0 {
        assert(first + second =~= first);
    } else {
        lemma_total_size_concat(first, second.drop_last());
        assert((first + second).drop_last() =~= first + second.drop_last());
        assert((first + second).last() == second.last());
    }
}

/// Gaining nothing leaves a state as it is.
pub proof fn lemma_gained_nothing(state: ScanView)
    requires
        state.active(),
    ensures
        state.gained(Seq::empty(), 0) == state,
{
    let top = state.top();
    assert(top.children + Seq::<NodeView>::empty() =~= top.children);
    assert(state.stack.drop_last().push(top) =~= state.stack);
}

/// Appending one node is gaining it.
pub proof fn lemma_gained_child(state: ScanView, node: NodeView, bytes: nat)
    requires
        state.active(),
    ensures
        (ScanView { scanned: state.scanned + bytes, ..state.with_child(node) }) == state.gained(
            seq![node],
            bytes,
        ),
{
    let top = state.top();
    assert(top.children.push(node) =~= top.children + seq![node]);
}

/// Gaining twice is gaining both at once.
pub proof fn lemma_gained_twice(
    state: ScanView,
    first: Seq<NodeView>,
    first_bytes: nat,
    second: Seq<NodeView>,
    second_bytes: nat,
)
    requires
        state.active(),
    ensures
        state.gained(first, first_bytes).gained(second, second_bytes) == state.gained(
            first + second,
            first_bytes + second_bytes,
        ),
{
    let top = state.top();
    let middle = state.gained(first, first_bytes);
    assert(middle.stack.drop_last() =~= state.stack.drop_last());
    assert((top.children + first) + second =~= top.children + (first + second));
}

/// Opening a directory and taking it away again leaves the stack as it was.
pub proof fn lemma_frame_undone(state: ScanView, path: Seq<char>)
    ensures
        state.with_frame(path).without_top() == state,
{
    assert(state.with_frame(path).stack.drop_last() =~= state.stack);
}

/// A walk of one entry leaves the scanner with the node that the entry
/// amounts to appended to the innermost open directory, and with the bytes
/// of its files counted.
pub proof fn lemma_walk_entry(state: ScanView, entry: Observed)
    requires
        state.active(),
    ensures
        run(state, events_of(entry, state.root_volume)) == state.gained(
            built(entry, state.root_volume),
            counted(entry, state.root_volume),
        ),
    decreases entry,
{
    let volume = state.root_volume;
    let report = reported(entry);
    let after = state.next(report).0;
    lemma_run_one(state, report);
    match entry {
        Observed::File { path, size } => {
            lemma_gained_child(state, NodeView::file(path, size as nat), size as nat);
        },
        Observed::Directory { path, volume_id, listing } => {
            if volume_id == volume {
                lemma_frame_undone(state, path);
                match listing {
                    Ok(entries) => {
                        let inner = events_in(entries, volume);
                        let close = seq![EventView::EndOfDirectory];
                        lemma_run_concat(state, seq![report] + inner, close);
                        lemma_run_concat(state, seq![report], inner);
                        lemma_walk_entries(after, entries);
                        let listed = run(after, inner);
                        lemma_run_one(listed, EventView::EndOfDirectory);
                        let nodes = built_all(entries, volume);
                        let bytes = counted_all(entries, volume);
                        assert(Seq::<NodeView>::empty() + nodes =~= nodes);
                        assert(listed.top().children == nodes);
                        assert(listed.stack.drop_last() =~= state.stack);
                        let rest = listed.without_top();
                        assert(rest == (ScanView { scanned: state.scanned + bytes, ..state }));
                        let node = NodeView::directory(path, nodes);
                        lemma_gained_child(state, node, bytes);
                        assert(rest.with_child(node) == (ScanView {
                            scanned: state.scanned + bytes,
                            ..state.with_child(node)
                        }));
                    },
                    Err(error) => {
                        let failed = EventView::ListingFailed { error };
                        assert(seq![report, failed] =~= seq![report] + seq![failed]);
                        lemma_run_concat(state, seq![report], seq![failed]);
                        lemma_run_one(after, failed);
                        lemma_gained_nothing(state);
                    },
                }
            } else {
                lemma_gained_nothing(state);
            }
        },
        _ => {
            lemma_gained_nothing(state);
        },
    }
}

/// A walk of the entries of a directory leaves the scanner with the nodes
/// that they amount to appended to the innermost open directory, and with
/// the bytes of their files counted.
pub proof fn lemma_walk_entries(state: ScanView, entries: Seq<Observed>)
    requires
        state.active(),
    ensures
        run(state, events_in(entries, state.root_volume)) == state.gained(
            built_all(entries, state.root_volume),
            counted_all(entries, state.root_volume),
        ),
    decreases entries,
{
    let volume = state.root_volume;
    if entries.len() == 0 {
        lemma_gained_nothing(state);
    } else {
        let front = entries.drop_last();
        lemma_walk_entries(state, front);
        let middle = run(state, events_in(front, volume));
        lemma_walk_entry(middle, entries.last());
        lemma_run_concat(state, events_in(front, volume), events_of(entries.last(), volume));
        lemma_gained_twice(
            state,
            built_all(front, volume),
            counted_all(front, volume),
            built(entries.last(), volume),
            counted(entries.last(), volume),
        );
    }
}

/// Whether the scanner can take each event of the sequence in its turn.
pub open spec fn accepted(state: ScanView, events: Seq<EventView>) -> bool
    decreases events.len(),
{
    events.len() == 0 || (accepted(state, events.drop_last()) && run(
        state,
        events.drop_last(),
    ).accepts(events.last()))
}

/// Two sequences of events are taken one after the other exactly when
/// their concatenation is.
pub proof fn lemma_accepted_concat(state: ScanView, first: Seq<EventView>, second: Seq<EventView>)
    ensures
        accepted(state, first + second) == (accepted(state, first) && accepted(
            run(state, first),
            second,
        )),
    decreases second.len(),
{
    if second.len() == 0 {
        assert(first + second =~= first);
    } else {
        lemma_accepted_concat(state, first, second.drop_last());
        lemma_run_concat(state, first, second.drop_last());
        assert((first + second).drop_last() =~= first + second.drop_last());
        assert((first + second).last() == second.last());
    }
}

/// One event is taken exactly when the state accepts it.
pub proof fn lemma_accepted_one(state: ScanView, event: EventView)
    ensures
        accepted(state, seq![event]) == state.accepts(event),
{
    let one = seq![event];
    assert(one.drop_last() =~= Seq::<EventView>::empty());
    assert(one.last() == event);
    assert(accepted(state, Seq::<EventView>::empty()));
    assert(run(state, Seq::<EventView>::empty()) == state);
}

/// The scanner can take every event of a walk of an entry, as long as the
/// bytes of the files in it still fit in the counter.
pub proof fn law_walk_of_entry_accepted(state: ScanView, entry: Observed)
    requires
        state.active(),
        state.scanned + counted(entry, state.root_volume) <= u64::MAX,
    ensures
        accepted(state, events_of(entry, state.root_volume)),
    decreases entry,
{
    let volume = state.root_volume;
    let report = reported(entry);
    let after = state.next(report).0;
    lemma_accepted_one(state, report);
    lemma_run_one(state, report);
    match entry {
        Observed::Directory { path, volume_id, listing } => {
            if volume_id == volume {
                match listing {
                    Ok(entries) => {
                        let inner = events_in(entries, volume);
                        let close = seq![EventView::EndOfDirectory];
                        lemma_accepted_concat(state, seq![report] + inner, close);
                        lemma_accepted_concat(state, seq![report], inner);
                        lemma_run_concat(state, seq![report], inner);
                        law_walk_of_entries_accepted(after, entries);
                        lemma_walk_entries(after, entries);
                        lemma_accepted_one(run(after, inner), EventView::EndOfDirectory);
                    },
                    Err(error) => {
                        let failed = EventView::ListingFailed { error };
                        assert(seq![report, failed] =~= seq![report] + seq![failed]);
                        lemma_accepted_concat(state, seq![report], seq![failed]);
                        lemma_accepted_one(after, failed);
                    },
                }
            }
        },
        _ => {},
    }
}

/// The scanner can take every event of a walk of the entries of a
/// directory, as long as the bytes of the files in them still fit in the
/// counter.
pub proof fn law_walk_of_entries_accepted(state: ScanView, entries: Seq<Observed>)
    requires
        state.active(),
        state.scanned + counted_all(entries, state.root_volume) <= u64::MAX,
    ensures
        accepted(state, events_in(entries, state.root_volume)),
    decreases entries,
{
    let volume = state.root_volume;
    if entries.len() > 0 {
        let front = entries.drop_last();
        law_walk_of_entries_accepted(state, front);
        lemma_walk_entries(state, front);
        let middle = run(state, events_in(front, volume));
        law_walk_of_entry_accepted(middle, entries.last());
        lemma_accepted_concat(state, events_in(front, volume), events_of(entries.last(), volume));
    }
}

/// A whole scan can be made with the scanner: from the start, it can take
/// every event of the walk of the root and then the end of the root's
/// listing, as long as the bytes of all files fit in 64 bits.
pub proof fn law_scan_accepted(
    root_path: Seq<char>,
    root_volume: u64,
    known_total: u64,
    entries: Seq<Observed>,
)
    requires
        counted_all(entries, root_volume) <= u64::MAX,
    ensures
        accepted(
            ScanView::initial(root_path, root_volume, known_total),
            events_in(entries, root_volume) + seq![EventView::EndOfDirectory],
        ),
{
    let start = ScanView::initial(root_path, root_volume, known_total);
    let inner = events_in(entries, root_volume);
    law_walk_of_entries_accepted(start, entries);
    lemma_walk_entries(start, entries);
    lemma_accepted_concat(start, inner, seq![EventView::EndOfDirectory]);
    lemma_accepted_one(run(start, inner), EventView::EndOfDirectory);
}

/// The tree that a scan of a root is to return: the root's directory node
/// over the nodes that its entries amount to.
pub open spec fn expected_tree(root_path: Seq<char>, root_volume: u64, entries: Seq<Observed>)
    -> NodeView {
    NodeView::directory(root_path, built_all(entries, root_volume))
}

/// A scanner that is given the events of a walk of a root, and then the end
/// of the root's listing, finishes with the expected tree, whatever among
/// the entries was unreadable or on another volume; its last snapshot
/// reports the expected total as scanned.
pub proof fn law_scan_builds_expected_tree(
    root_path: Seq<char>,
    root_volume: u64,
    known_total: u64,
    entries: Seq<Observed>,
)
    ensures
        ({
            let start = ScanView::initial(root_path, root_volume, known_total);
            let listed = run(start, events_in(entries, root_volume));
            &&& listed.active()
            &&& listed.scanned == counted_all(entries, root_volume)
            &&& !listed.next(EventView::EndOfDirectory).0.active()
            &&& listed.next(EventView::EndOfDirectory).1 == ActionView::Finished {
                tree: expected_tree(root_path, root_volume, entries),
                scanned: known_total as nat,
                total: known_total as nat,
            }
        }),
{
    let start = ScanView::initial(root_path, root_volume, known_total);
    lemma_walk_entries(start, entries);
    let nodes = built_all(entries, root_volume);
    assert(Seq::<NodeView>::empty() + nodes =~= nodes);
}

/// The tree that a walk amounts to is sound: at every directory the size is
/// the sum of the sizes of its children.
pub proof fn law_built_sound(entry: Observed, root_volume: u64)
    ensures
        forall|i: int|
            0 <= i < built(entry, root_volume).len() ==> (#[trigger] built(
                entry,
                root_volume,
            )[i]).sound(),
        total_size(built(entry, root_volume)) == counted(entry, root_volume),
    decreases entry,
{
    let nodes = built(entry, root_volume);
    if nodes.len() > 0 {
        assert(nodes =~= Seq::<NodeView>::empty().push(nodes[0]));
        lemma_total_size_push(Seq::empty(), nodes[0]);
        assert(total_size(Seq::<NodeView>::empty()) == 0);
    }
    match entry {
        Observed::Directory { path, volume_id, listing } => {
            if volume_id == root_volume {
                match listing {
                    Ok(entries) => {
                        law_built_all_sound(entries, root_volume);
                    },
                    Err(_) => {},
                }
            }
        },
        _ => {},
    }
}

/// The nodes that the entries of a directory amount to are sound, and their
/// sizes add up to the bytes counted.
pub proof fn law_built_all_sound(entries: Seq<Observed>, root_volume: u64)
    ensures
        forall|i: int|
            0 <= i < built_all(entries, root_volume).len() ==> (#[trigger] built_all(
                entries,
                root_volume,
            )[i]).sound(),
        total_size(built_all(entries, root_volume)) == counted_all(entries, root_volume),
    decreases entries,
{
    if entries.len() > 0 {
        law_built_all_sound(entries.drop_last(), root_volume);
        law_built_sound(entries.last(), root_volume);
        lemma_total_size_concat(
            built_all(entries.drop_last(), root_volume),
            built(entries.last(), root_volume),
        );
    }
}

/// The nodes of two runs of entries, one after the other.
pub proof fn lemma_built_all_concat(first: Seq<Observed>, second: Seq<Observed>, root_volume: u64)
    ensures
        built_all(first + second, root_volume) == built_all(first, root_volume) + built_all(
            second,
            root_volume,
        ),
    decreases second.len(),
{
    if second.len() == 0 {
        assert(first + second =~= first);
        assert(built_all(first, root_volume) + Seq::<NodeView>::empty() =~= built_all(
            first,
            root_volume,
        ));
    } else {
        lemma_built_all_concat(first, second.drop_last(), root_volume);
        assert((first + second).drop_last() =~= first + second.drop_last());
        assert((first + second).last() == second.last());
        assert(built_all(first + second, root_volume) =~= built_all(first, root_volume)
            + built_all(second, root_volume));
    }
}

/// An entry that cannot be read, is neither file nor directory, lies on
/// another volume than the root, or is a directory that cannot be listed,
/// is absent from its parent: the parent's children and size are those of
/// the listing without the entry.
pub proof fn law_skipped_entry_absent(
    path: Seq<char>,
    before: Seq<Observed>,
    entry: Observed,
    after: Seq<Observed>,
    root_volume: u64,
)
    requires
        !(entry is File),
        !entered(entry, root_volume),
    ensures
        NodeView::directory(path, built_all(before + seq![entry] + after, root_volume))
            == NodeView::directory(path, built_all(before + after, root_volume)),
{
    lemma_built_all_concat(before + seq![entry], after, root_volume);
    lemma_built_all_concat(before, seq![entry], root_volume);
    lemma_built_all_concat(before, after, root_volume);
    let one = seq![entry];
    assert(one.drop_last() =~= Seq::<Observed>::empty());
    assert(one.last() == entry);
    assert(built(entry, root_volume) =~= Seq::<NodeView>::empty()) by {
        match entry {
            Observed::Directory { path, volume_id, listing } => {
                assert(volume_id != root_volume || listing is Err);
            },
            _ => {},
        }
    }
    assert(built_all(one.drop_last(), root_volume) =~= Seq::<NodeView>::empty());
    assert(built_all(one, root_volume) =~= Seq::<NodeView>::empty());
    assert(built_all(before, root_volume) + Seq::<NodeView>::empty() =~= built_all(
        before,
        root_volume,
    ));
}

} // verus!
