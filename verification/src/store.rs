//! The result cache: the last finished tree of each scanned root, and the
//! flattened view that is served from it.

use vstd::prelude::*;
use crate::error::ScanError;
use crate::flatten::{nodes_of, ref_views, top_nodes};
use crate::node::{DiskItem, NodeView};

verus! {

/// How many nodes a flattened view holds at most.
pub const FLATTEN_LIMIT: usize = 500;

/// The finished trees, each under the path of its root.
#[derive(Debug)]
pub struct DiskStore {
    entries: Vec<(String, DiskItem)>,
}

impl View for DiskStore {
    type V = Map<Seq<char>, NodeView>;

    /// The finished tree of each root that the store holds.
    closed spec fn view(&self) -> Map<Seq<char>, NodeView> {
        Map::new(
            |root: Seq<char>| self.holds(root),
            |root: Seq<char>| self.entries@[self.slot(root)].1@,
        )
    }
}

impl DiskStore {
    /// Whether a tree is kept under `root`.
    spec fn holds(&self, root: Seq<char>) -> bool {
        exists|i: int| 0 <= i < self.entries@.len() && (#[trigger] self.entries@[i]).0@ == root
    }

    /// Where the tree of `root` is kept.
    spec fn slot(&self, root: Seq<char>) -> int {
        choose|i: int| 0 <= i < self.entries@.len() && (#[trigger] self.entries@[i]).0@ == root
    }

    /// The invariant of the type: no root stands twice.
    #[verifier::type_invariant]
    spec fn distinct(&self) -> bool {
        forall|i: int, j: int|
            0 <= i < j < self.entries@.len() ==> (#[trigger] self.entries@[i]).0@ != (
            #[trigger] self.entries@[j]).0@
    }

    /// A store that holds nothing.
    pub fn new() -> (store: DiskStore)
        ensures
            store@ == Map::<Seq<char>, NodeView>::empty(),
    {
        let store = DiskStore { entries: Vec::new() };
        proof {
            assert(store@ =~= Map::<Seq<char>, NodeView>::empty());
        }
        store
    }

    /// Where the tree of `root` stands, if the store holds one.
    fn find(&self, root: &String) -> (at: Option<usize>)
        ensures
            match at {
                Some(i) => i < self.entries@.len() && self.entries@[i as int].0@ == root@
                    && self.holds(root@) && self.slot(root@) == i,
                None => !self.holds(root@),
            },
    {
        proof {
            use_type_invariant(self);
        }
        let mut i: usize = 0;
        while i < self.entries.len()
            invariant
                self.distinct(),
                i <= self.entries@.len(),
                forall|k: int| 0 <= k < i ==> (#[trigger] self.entries@[k]).0@ != root@,
            decreases self.entries@.len() - i,
        {
            if self.entries[i].0 == *root {
                proof {
                    assert(self.entries@[i as int].0@ == root@);
                    let s = self.slot(root@);
                    if s != i {
                        assert(self.entries@[s].0@ == self.entries@[i as int].0@);
                    }
                }
                return Some(i);
            }
            i = i + 1;
        }
        None
    }

    /// Keeps `analysis` as the finished tree of `name`, in place of an
    /// earlier one.
    pub fn set_analysis(&mut self, name: String, analysis: DiskItem)
        ensures
            final(self)@ == old(self)@.insert(name@, analysis@),
    {
        let ghost before = *self;
        let ghost key = name@;
        let ghost tree = analysis@;
        proof {
            use_type_invariant(&*self);
        }
        let found = self.find(&name);
        // The entries are taken out while they change, so that the invariant
        // of the type holds of `self` at every moment.
        let mut entries: Vec<(String, DiskItem)> = Vec::new();
        core::mem::swap(&mut self.entries, &mut entries);
        match found {
            Some(i) => {
                proof {
                    let after = before.entries@.update(i as int, (name, analysis));
                    assert forall|a: int, b: int| 0 <= a < b < after.len() implies (
                    #[trigger] after[a]).0@ != (#[trigger] after[b]).0@ by {
                        assert(before.entries@[a].0@ == after[a].0@);
                        assert(before.entries@[b].0@ == after[b].0@);
                    }
                }
                entries.set(i, (name, analysis));
                core::mem::swap(&mut self.entries, &mut entries);
                proof {
                    assert forall|root: Seq<char>| self.holds(root) == before.holds(root) by {
                        if before.holds(root) {
                            assert(self.entries@[before.slot(root)].0@ == root);
                        }
                        if self.holds(root) {
                            assert(before.entries@[self.slot(root)].0@ == root);
                        }
                    }
                    assert(before.holds(key));
                    assert forall|root: Seq<char>| self.holds(root) implies #[trigger] self@[root]
                        == before@.insert(key, tree)[root] by {
                        let s = self.slot(root);
                        let t = before.slot(root);
                        assert(before.entries@[s].0@ == root);
                        if s != t {
                            assert(before.entries@[s].0@ == before.entries@[t].0@);
                        }
                    }
                    assert(self@ =~= before@.insert(key, tree));
                }
            },
            None => {
                proof {
                    let after = before.entries@.push((name, analysis));
                    assert forall|a: int, b: int| 0 <= a < b < after.len() implies (
                    #[trigger] after[a]).0@ != (#[trigger] after[b]).0@ by {
                        assert(before.entries@[a] == after[a]);
                        if b < before.entries@.len() {
                            assert(before.entries@[b] == after[b]);
                        }
                    }
                }
                entries.push((name, analysis));
                core::mem::swap(&mut self.entries, &mut entries);
                proof {
                    let last = before.entries@.len() as int;
                    assert(self.entries@[last].0@ == key);
                    assert forall|root: Seq<char>| self.holds(root) == (before.holds(root) || root
                        == key) by {
                        if before.holds(root) {
                            assert(self.entries@[before.slot(root)].0@ == root);
                        }
                    }
                    assert forall|root: Seq<char>| self.holds(root) implies #[trigger] self@[root]
                        == before@.insert(key, tree)[root] by {
                        let s = self.slot(root);
                        if root == key {
                            if s < last {
                                assert(before.entries@[s].0@ == root);
                            }
                        } else {
                            assert(s < last);
                            assert(before.entries@[s].0@ == root);
                            let t = before.slot(root);
                            if s != t {
                                assert(before.entries@[s].0@ == before.entries@[t].0@);
                            }
                        }
                    }
                    assert(self@ =~= before@.insert(key, tree));
                }
            },
        }
    }

    /// The finished tree of `root`, if the store holds one.
    pub fn analysis(&self, root: &String) -> (tree: Option<&DiskItem>)
        ensures
            tree is Some <==> self@.contains_key(root@),
            tree is Some ==> tree->0@ == self@[root@],
    {
        match self.find(root) {
            Some(i) => Some(&self.entries[i].1),
            None => None,
        }
    }

    /// The `limit` largest nodes of the finished tree of `root`; the error
    /// `AnalysisNotFound` when the store holds no tree of that root.
    pub fn flattened(&self, root: &String, limit: usize) -> (top: Result<Vec<&DiskItem>, ScanError>)
        ensures
            top is Ok <==> self@.contains_key(root@),
            top is Ok ==> ref_views(top->Ok_0@) == top_nodes(self@[root@], limit as nat),
            top is Ok ==> forall|i: int|
                0 <= i < top->Ok_0@.len() ==> nodes_of(self@[root@]).contains(
                    #[trigger] top->Ok_0@[i]@,
                ),
            top is Err ==> top->Err_0 == ScanError::AnalysisNotFound,
    {
        match self.analysis(root) {
            Some(tree) => Ok(tree.flatten(limit)),
            None => Err(ScanError::AnalysisNotFound),
        }
    }
}

impl Default for DiskStore {
    /// A store that holds nothing.
    fn default() -> (store: DiskStore)
        ensures
            store@ == Map::<Seq<char>, NodeView>::empty(),
    {
        DiskStore::new()
    }
}

/// What the application keeps between its commands.
#[derive(Debug)]
pub struct AppStore {
    pub disk: DiskStore,
}

impl AppStore {
    /// A store that holds nothing.
    pub fn new() -> (store: AppStore)
        ensures
            store.disk@ == Map::<Seq<char>, NodeView>::empty(),
    {
        AppStore { disk: DiskStore::new() }
    }

    /// Keeps the tree of a finished scan under the path of its root.
    pub fn set_disk_analysis(&mut self, name: String, disk_analysis: DiskItem)
        ensures
            final(self).disk@ == old(self).disk@.insert(name@, disk_analysis@),
    {
        self.disk.set_analysis(name, disk_analysis);
    }

    /// The flattened view of the last finished scan of `path`: its largest
    /// nodes, `FLATTEN_LIMIT` at most; `AnalysisNotFound` when no scan of
    /// that root has finished.
    pub fn disk_analysis_flattened(&self, path: &String) -> (top: Result<
        Vec<&DiskItem>,
        ScanError,
    >)
        ensures
            top is Ok <==> self.disk@.contains_key(path@),
            top is Ok ==> ref_views(top->Ok_0@) == top_nodes(
                self.disk@[path@],
                FLATTEN_LIMIT as nat,
            ),
            top is Err ==> top->Err_0 == ScanError::AnalysisNotFound,
    {
        self.disk.flattened(path, FLATTEN_LIMIT)
    }
}

impl Default for AppStore {
    /// A store that holds nothing.
    fn default() -> (store: AppStore)
        ensures
            store.disk@ == Map::<Seq<char>, NodeView>::empty(),
    {
        AppStore::new()
    }
}

} // verus!
