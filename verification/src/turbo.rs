//! The parallel scanner, one directory at a time. The worker that owns a
//! directory counts its files itself and hands its subdirectories out; when
//! every one of them has come back, it joins them into the directory's node.

use vstd::prelude::*;
use crate::classify::FileInfo;
use crate::error::ScanError;
use crate::node::{total_size, views, DiskItem, NodeView};
use crate::scan::{ActionView, EventView, ScanView};
use crate::walk::{
    built, built_all, events_in, expected_tree, law_built_sound, law_scan_builds_expected_tree,
    run, Observed,
};

verus! {

/// The most workers that a parallel scan runs at a time.
pub const MAX_WORKERS: usize = 16;

/// The workers of a parallel scan on a machine with `available` units of
/// parallel execution: one for each unit, at least one, and no more than
/// `MAX_WORKERS`.
pub fn worker_count(available: usize) -> (workers: usize)
    ensures
        workers == if available == 0 {
            1
        } else if available > MAX_WORKERS {
            MAX_WORKERS
        } else {
            available
        },
        1 <= workers <= MAX_WORKERS,
{
    if available == 0 {
        1
    } else if available > MAX_WORKERS {
        MAX_WORKERS
    } else {
        available
    }
}

/// What became of an entry that was offered to a directory's task.
#[derive(Clone, Copy, Debug, PartialEq, Eq, Structural)]
pub enum Offer {
    /// A file: it is a child now, and its bytes are to be added to the
    /// shared counter.
    Counted { size: u64 },
    /// A directory of the scan: it is to be handed to a worker.
    Dispatch,
    /// Nothing: the entry is left out.
    Skipped,
}

/// The model of one place among the children of a directory.
pub enum SlotView {
    /// A child that is there.
    Ready(NodeView),
    /// A subdirectory that has been handed out.
    Pending,
}

/// The model of a directory's task.
pub struct TaskView {
    pub path: Seq<char>,
    pub slots: Seq<SlotView>,
}

/// How many subdirectories have been handed out.
pub open spec fn pending(slots: Seq<SlotView>) -> nat
    decreases slots.len(),
{
    if slots.len() == 0 {
        0
    } else {
        pending(slots.drop_last()) + if slots.last() is Pending {
            1nat
        } else {
            0nat
        }
    }
}

/// The children of a directory once its subdirectories have come back:
/// each child that was there, and in the place of each subdirectory the tree
/// that came back for it, if one did. The results stand in the order in
/// which the subdirectories were handed out.
pub open spec fn merged(slots: Seq<SlotView>, results: Seq<Option<NodeView>>) -> Seq<NodeView>
    decreases slots.len(),
{
    if slots.len() == 0 {
        Seq::empty()
    } else {
        match slots.last() {
            SlotView::Ready(node) => merged(slots.drop_last(), results).push(node),
            SlotView::Pending => if results.len() == 0 {
                merged(slots.drop_last(), results)
            } else {
                match results.last() {
                    Some(tree) => merged(slots.drop_last(), results.drop_last()).push(tree),
                    None => merged(slots.drop_last(), results.drop_last()),
                }
            },
        }
    }
}

impl TaskView {
    /// The task of a directory of which nothing has been seen yet.
    pub open spec fn fresh(path: Seq<char>) -> TaskView {
        TaskView { path, slots: Seq::empty() }
    }

    /// The task after an entry has been offered, and what became of the
    /// entry: a file is a child at once, a directory on the root's volume is
    /// handed out, anything else is left out.
    pub open spec fn offered(
        self,
        path: Seq<char>,
        info: Result<FileInfo, ScanError>,
        root_volume: u64,
    ) -> (TaskView, Offer) {
        match info {
            Ok(FileInfo::File { size }) => (
                TaskView {
                    slots: self.slots.push(SlotView::Ready(NodeView::file(path, size as nat))),
                    ..self
                },
                Offer::Counted { size },
            ),
            Ok(FileInfo::Directory { volume_id }) => if volume_id == root_volume {
                (TaskView { slots: self.slots.push(SlotView::Pending), ..self }, Offer::Dispatch)
            } else {
                (self, Offer::Skipped)
            },
            _ => (self, Offer::Skipped),
        }
    }

    /// The task after every entry of a listing has been offered in turn.
    pub open spec fn offered_all(self, entries: Seq<Observed>, root_volume: u64) -> TaskView
        decreases entries.len(),
    {
        if entries.len() == 0 {
            self
        } else {
            self.offered_all(entries.drop_last(), root_volume).offered(
                entries.last().path(),
                entries.last().info(),
                root_volume,
            ).0
        }
    }
}

/// The tree that a parallel scan builds of an entry that was handed out: the
/// join of the directory's task after every entry of its listing has been
/// offered and every subdirectory handed out in turn has come back with its
/// own such tree; nothing for a directory that could not be listed.
pub open spec fn turbo_tree(entry: Observed, root_volume: u64) -> Option<NodeView>
    decreases entry,
{
    match entry {
        Observed::Directory { path, volume_id, listing: Ok(entries) } => Some(
            NodeView::directory(
                path,
                merged(
                    TaskView::fresh(path).offered_all(entries, root_volume).slots,
                    turbo_results(entries, root_volume),
                ),
            ),
        ),
        _ => None,
    }
}

/// What comes back for the subdirectories that a listing hands out, in the
/// order of handing out.
pub open spec fn turbo_results(entries: Seq<Observed>, root_volume: u64) -> Seq<Option<NodeView>>
    decreases entries,
{
    if entries.len() == 0 {
        Seq::empty()
    } else {
        let front = turbo_results(entries.drop_last(), root_volume);
        match entries.last() {
            Observed::Directory { path, volume_id, listing } => if volume_id == root_volume {
                front.push(turbo_tree(entries.last(), root_volume))
            } else {
                front
            },
            _ => front,
        }
    }
}

/// The join of a directory in a parallel scan holds one result for each
/// subdirectory that was handed out, and its children are the nodes that a
/// walk of the listing amounts to, in the same order.
pub proof fn law_join_matches_walk(path: Seq<char>, entries: Seq<Observed>, root_volume: u64)
    ensures
        ({
            let task = TaskView::fresh(path).offered_all(entries, root_volume);
            let results = turbo_results(entries, root_volume);
            &&& task.path == path
            &&& pending(task.slots) == results.len()
            &&& merged(task.slots, results) == built_all(entries, root_volume)
        }),
    decreases entries,
{
    if entries.len() > 0 {
        let front = entries.drop_last();
        let last = entries.last();
        law_join_matches_walk(path, front, root_volume);
        let before = TaskView::fresh(path).offered_all(front, root_volume);
        let task = TaskView::fresh(path).offered_all(entries, root_volume);
        let results = turbo_results(entries, root_volume);
        let early = turbo_results(front, root_volume);
        let nodes = built_all(front, root_volume);
        match last {
            Observed::File { path: file_path, size } => {
                let node = NodeView::file(file_path, size as nat);
                assert(task.slots.drop_last() =~= before.slots);
                assert(nodes.push(node) =~= nodes + seq![node]);
                assert(built(last, root_volume) =~= seq![node]);
            },
            Observed::Directory { path: dir_path, volume_id, listing } => {
                if volume_id == root_volume {
                    assert(task.slots.drop_last() =~= before.slots);
                    assert(results.drop_last() =~= early);
                    law_parallel_tree_matches_walk(last, root_volume);
                    match listing {
                        Ok(inner) => {
                            let tree = NodeView::directory(dir_path, built_all(inner, root_volume));
                            assert(built(last, root_volume) =~= seq![tree]);
                            assert(nodes.push(tree) =~= nodes + seq![tree]);
                            assert(results.last() == Some(tree));
                        },
                        Err(_) => {
                            assert(nodes + built(last, root_volume) =~= nodes);
                            assert(results.last() is None);
                        },
                    }
                } else {
                    assert(nodes + built(last, root_volume) =~= nodes);
                }
            },
            _ => {
                assert(nodes + built(last, root_volume) =~= nodes);
                assert(task == before);
                assert(results == early);
            },
        }
    }
}

/// A parallel scan builds of a directory the tree that a walk of it amounts
/// to: the directory's node over the nodes of its listing.
pub proof fn law_parallel_tree_matches_walk(entry: Observed, root_volume: u64)
    ensures
        match entry {
            Observed::Directory { path, volume_id, listing: Ok(entries) } => turbo_tree(
                entry,
                root_volume,
            ) == Some(NodeView::directory(path, built_all(entries, root_volume))),
            _ => turbo_tree(entry, root_volume) is None,
        },
    decreases entry,
{
    match entry {
        Observed::Directory { path, volume_id, listing: Ok(entries) } => {
            law_join_matches_walk(path, entries, root_volume);
        },
        _ => {},
    }
}

/// Parallelism does not change the result. For one root and one listing,
/// the tree with which the sequential scanner finishes is the tree that the
/// parallel scan joins, node for node; and it is sound.
pub proof fn law_parallel_scan_matches_sequential(
    root_path: Seq<char>,
    root_volume: u64,
    known_total: u64,
    entries: Seq<Observed>,
)
    ensures
        ({
            let start = ScanView::initial(root_path, root_volume, known_total);
            let listed = run(start, events_in(entries, root_volume));
            let root = Observed::Directory {
                path: root_path,
                volume_id: root_volume,
                listing: Ok(entries),
            };
            &&& turbo_tree(root, root_volume) is Some
            &&& listed.next(EventView::EndOfDirectory).1 == ActionView::Finished {
                tree: turbo_tree(root, root_volume)->0,
                scanned: known_total as nat,
                total: known_total as nat,
            }
            &&& turbo_tree(root, root_volume)->0.sound()
        }),
{
    let root = Observed::Directory { path: root_path, volume_id: root_volume, listing: Ok(entries) };
    law_parallel_tree_matches_walk(root, root_volume);
    law_scan_builds_expected_tree(root_path, root_volume, known_total, entries);
    law_built_sound(root, root_volume);
    assert(built(root, root_volume)[0] == expected_tree(root_path, root_volume, entries));
}

/// One place among the children of a directory.
#[derive(Debug)]
enum Slot {
    Ready(DiskItem),
    Pending,
}

impl View for Slot {
    type V = SlotView;

    /// The place with its child as a tree of plain values.
    closed spec fn view(&self) -> SlotView {
        match *self {
            Slot::Ready(node) => SlotView::Ready(node@),
            Slot::Pending => SlotView::Pending,
        }
    }
}

/// The models of the places, in the order of the listing.
spec fn slot_views(slots: Seq<Slot>) -> Seq<SlotView> {
    Seq::new(slots.len(), |i: int| slots[i]@)
}


/// The models of the results of the subdirectories that were handed out.
pub open spec fn outcomes(results: Seq<Option<DiskItem>>) -> Seq<Option<NodeView>> {
    Seq::new(
        results.len(),
        |i: int|
            match results[i] {
                Some(tree) => Some(tree@),
                None => None,
            },
    )
}

/// The task of the worker that owns one directory of a parallel scan.
#[derive(Debug)]
pub struct DirectoryTask {
    path: String,
    slots: Vec<Slot>,
}

impl View for DirectoryTask {
    type V = TaskView;

    /// The task as plain values.
    closed spec fn view(&self) -> TaskView {
        TaskView { path: self.path@, slots: slot_views(self.slots@) }
    }
}

impl DirectoryTask {
    /// The task of the directory at `path`, of which nothing has been seen
    /// yet.
    pub fn new(path: String) -> (task: DirectoryTask)
        ensures
            task@ == TaskView::fresh(path@),
    {
        let task = DirectoryTask { path, slots: Vec::new() };
        proof {
            assert(task@.slots =~= Seq::empty());
        }
        task
    }

    /// Offers the next entry of the directory, with its classification or
    /// the reason why it has none, and says what became of it.
    pub fn offer(&mut self, path: String, info: Result<FileInfo, ScanError>, root_volume: u64) -> (offer:
        Offer)
        ensures
            final(self)@ == old(self)@.offered(path@, info, root_volume).0,
            offer == old(self)@.offered(path@, info, root_volume).1,
    {
        let ghost before = self@;
        match info {
            Ok(FileInfo::File { size }) => {
                let node = DiskItem::file(path, size);
                self.slots.push(Slot::Ready(node));
                proof {
                    assert(self@.slots =~= before.slots.push(SlotView::Ready(node@)));
                }
                Offer::Counted { size }
            },
            Ok(FileInfo::Directory { volume_id }) => {
                if volume_id == root_volume {
                    self.slots.push(Slot::Pending);
                    proof {
                        assert(self@.slots =~= before.slots.push(SlotView::Pending));
                    }
                    Offer::Dispatch
                } else {
                    Offer::Skipped
                }
            },
            _ => Offer::Skipped,
        }
    }

    /// How many subdirectories have been handed out.
    pub fn pending(&self) -> (count: usize)
        ensures
            count == pending(self@.slots),
    {
        let ghost all = self@.slots;
        let mut count: usize = 0;
        let mut i: usize = 0;
        proof {
            assert(all.take(0) =~= Seq::empty());
        }
        while i < self.slots.len()
            invariant
                i <= self.slots@.len(),
                all == slot_views(self.slots@),
                count == pending(all.take(i as int)),
                count <= i,
            decreases self.slots@.len() - i,
        {
            proof {
                assert(all.take(i + 1).drop_last() =~= all.take(i as int));
                assert(all.take(i + 1).last() == self.slots@[i as int]@);
            }
            match &self.slots[i] {
                Slot::Pending => {
                    count = count + 1;
                },
                Slot::Ready(_) => {},
            }
            i = i + 1;
        }
        proof {
            assert(all.take(i as int) =~= all);
        }
        count
    }

    /// Joins the directory once every subdirectory that was handed out has
    /// come back, `results` holding for each, in the order of handing out,
    /// its tree or nothing. The node of the directory holds the merged
    /// children in the order of the listing; there is none when the sum of
    /// their sizes does not fit in 64 bits.
    pub fn join(self, results: Vec<Option<DiskItem>>) -> (node: Option<DiskItem>)
        requires
            results@.len() == pending(self@.slots),
        ensures
            node is Some <==> total_size(merged(self@.slots, outcomes(results@))) <= u64::MAX,
            node is Some ==> node->0@ == NodeView::directory(
                self@.path,
                merged(self@.slots, outcomes(results@)),
            ),
            node is Some ==> node->0@.sound(),
    {
        let ghost target = merged(self@.slots, outcomes(results@));
        let DirectoryTask { path, slots } = self;
        let mut slots = slots;
        let mut results = results;
        let mut tail: Vec<DiskItem> = Vec::new();
        proof {
            assert(views(tail@).reverse() =~= Seq::empty());
            assert(target + Seq::<NodeView>::empty() =~= target);
        }
        while slots.len() > 0
            invariant
                target == merged(slot_views(slots@), outcomes(results@)) + views(tail@).reverse(),
            decreases slots@.len(),
        {
            let ghost slots_before = slot_views(slots@);
            let ghost results_before = outcomes(results@);
            let ghost tail_before = views(tail@);
            let ghost head = merged(slots_before, results_before);
            let slot = slots.pop().unwrap();
            proof {
                assert(slot_views(slots@) =~= slots_before.drop_last());
                assert(slots_before.last() == slot@);
            }
            match slot {
                Slot::Ready(node) => {
                    let ghost model = node@;
                    tail.push(node);
                    proof {
                        assert(views(tail@).reverse() =~= seq![model] + tail_before.reverse());
                        assert(head + tail_before.reverse() =~= merged(
                            slot_views(slots@),
                            outcomes(results@),
                        ) + views(tail@).reverse());
                    }
                },
                Slot::Pending => {
                    if results.len() > 0 {
                        let result = results.pop().unwrap();
                        proof {
                            assert(outcomes(results@) =~= results_before.drop_last());
                        }
                        match result {
                            Some(tree) => {
                                let ghost model = tree@;
                                proof {
                                    assert(results_before.last() == Some(model));
                                }
                                tail.push(tree);
                                proof {
                                    assert(views(tail@).reverse() =~= seq![model]
                                        + tail_before.reverse());
                                    assert(head + tail_before.reverse() =~= merged(
                                        slot_views(slots@),
                                        outcomes(results@),
                                    ) + views(tail@).reverse());
                                }
                            },
                            None => {
                                proof {
                                    assert(results_before.last() is None);
                                }
                            },
                        }
                    }
                },
            }
        }
        let mut children: Vec<DiskItem> = Vec::new();
        proof {
            assert(views(children@) =~= Seq::empty());
            assert(target =~= views(children@) + views(tail@).reverse());
        }
        while tail.len() > 0
            invariant
                target == views(children@) + views(tail@).reverse(),
            decreases tail@.len(),
        {
            let ghost tail_before = views(tail@);
            let ghost children_before = views(children@);
            let node = tail.pop().unwrap();
            children.push(node);
            proof {
                assert(views(tail@) =~= tail_before.drop_last());
                assert(views(children@) =~= children_before.push(tail_before.last()));
                assert(children_before + tail_before.reverse() =~= views(children@) + views(
                    tail@,
                ).reverse());
            }
        }
        proof {
            assert(views(tail@).reverse() =~= Seq::empty());
            assert(target =~= views(children@));
        }
        DiskItem::directory(path, children)
    }
}

} // verus!
