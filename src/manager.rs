//! The inode/tree manager: a directory tree held in an arena, the table from
//! inode to tree node, and lookups by any of the four identifier forms.
use std::collections::HashMap;
use std::collections::VecDeque;
use vstd::prelude::*;

use crate::file::{
    directory_attr, directory_attr_spec, remote_id_of, File, FileAttr, FileId, FileType, Inode,
    NodeId, RemoteFile,
};

verus! {

broadcast use vstd::std_specs::hash::group_hash_axioms;

/// Why an operation of the manager was refused.
#[derive(Clone, Copy, Debug, PartialEq, Eq, Structural)]
pub enum FileError {
    /// The identifier does not resolve to a registered file.
    NotFound,
    /// The file has no remote identifier.
    NoRemote,
    /// The tree already has its root; a second parentless node is refused.
    RootExists,
    /// Inode 0 is not a valid inode number.
    InvalidInode,
    /// The inode number is already registered.
    InodeInUse,
    /// Another registered file carries the same remote identifier.
    DriveIdInUse,
    /// Every inode number is taken.
    Exhausted,
}

/// A write to hand to the remote store: the remote identifier of the target,
/// the offset and the bytes, forwarded verbatim.
#[derive(Clone, Debug)]
pub struct WriteRequest {
    pub drive_id: String,
    pub offset: usize,
    pub data: Vec<u8>,
}

/// A position in the directory tree: the file it carries, its parent's index
/// and the indices of its children in insertion order.
struct TreeNode {
    file: File,
    parent: Option<usize>,
    children: Vec<usize>,
}

/// Owns the directory tree, the inode table and the queue of remote
/// directories still to be listed while the tree is being populated.
pub struct FileManager {
    tree: Vec<TreeNode>,
    node_ids: HashMap<Inode, usize>,
    pending: VecDeque<String>,
}

/// Every finite run `1..=m` of inode numbers has `m` elements.
proof fn lemma_inode_run_len(m: u64)
    ensures
        Set::new(|k: u64| 1 <= k <= m).finite(),
        Set::new(|k: u64| 1 <= k <= m).len() == m,
    decreases m,
{
    if m == 0 {
        assert(Set::new(|k: u64| 1 <= k <= m) =~= Set::<u64>::empty());
    } else {
        let p = (m - 1) as u64;
        lemma_inode_run_len(p);
        assert(Set::new(|k: u64| 1 <= k <= m) =~= Set::new(|k: u64| 1 <= k <= p).insert(m));
    }
}

impl FileManager {
    /// Number of nodes in the tree.
    pub closed spec fn len(self) -> nat {
        self.tree@.len()
    }

    /// The inode carried by the node at index `k`.
    pub closed spec fn inode_at(self, k: int) -> Inode {
        self.tree@[k].file.inode
    }

    /// The table from inode to tree node index.
    pub closed spec fn node_table(self) -> Map<Inode, usize> {
        self.node_ids@
    }

    /// The table from inode to file.
    pub closed spec fn file_table(self) -> Map<Inode, File> {
        Map::new(
            |i: Inode| self.node_ids@.contains_key(i),
            |i: Inode| self.tree@[self.node_ids@[i] as int].file,
        )
    }

    /// The parent of a registered file, as an inode; `None` for the root.
    pub closed spec fn parent_of(self, i: Inode) -> Option<Inode> {
        match self.tree@[self.node_ids@[i] as int].parent {
            Some(p) => Some(self.inode_at(p as int)),
            None => None,
        }
    }

    /// The children of a registered file, as inodes, in insertion order.
    pub closed spec fn children_of(self, i: Inode) -> Seq<Inode> {
        self.tree@[self.node_ids@[i] as int].children@.map_values(
            |c: usize| self.inode_at(c as int),
        )
    }

    /// Remote directories still to be listed, in order.
    pub closed spec fn pending(self) -> Seq<Seq<char>> {
        self.pending@.map_values(|s: String| s@)
    }

    /// Whether some registered file carries the remote identifier `r`.
    pub closed spec fn has_remote(self, r: Seq<char>) -> bool {
        exists|k: int| 0 <= k < self.len() && remote_id_of(#[trigger] self.tree@[k].file) == Some(r)
    }

    /// The inode of the file that carries the remote identifier `r`.
    pub closed spec fn remote_inode(self, r: Seq<char>) -> Inode {
        self.inode_at(
            choose|k: int| 0 <= k < self.len() && remote_id_of(#[trigger] self.tree@[k].file) == Some(r),
        )
    }

    /// The inode of the first of `cs` whose file is named `name`.
    pub closed spec fn first_named(self, cs: Seq<usize>, name: Seq<char>) -> Option<Inode>
        decreases cs.len(),
    {
        if cs.len() == 0 {
            None
        } else if self.tree@[cs[0] as int].file.name@ == name {
            Some(self.inode_at(cs[0] as int))
        } else {
            self.first_named(cs.drop_first(), name)
        }
    }

    /// The inode that an identifier denotes, if any.
    pub closed spec fn resolve(self, id: FileId) -> Option<Inode> {
        match id {
            FileId::Inode(i) => if self.node_ids@.contains_key(i) {
                Some(i)
            } else {
                None
            },
            FileId::DriveId(r) => if self.has_remote(r@) {
                Some(self.remote_inode(r@))
            } else {
                None
            },
            FileId::NodeId(n) => if n.index < self.len() {
                Some(self.inode_at(n.index as int))
            } else {
                None
            },
            FileId::ParentAndName { parent, name } => if self.node_ids@.contains_key(parent) {
                self.first_named(self.tree@[self.node_ids@[parent] as int].children@, name@)
            } else {
                None
            },
        }
    }

    /// `i` is the smallest positive inode number not registered.
    pub closed spec fn is_next_inode(self, i: Inode) -> bool {
        &&& i > 0
        &&& !self.node_ids@.contains_key(i)
        &&& forall|k: Inode| 0 < k < i ==> self.node_ids@.contains_key(k)
    }

    /// The inode number the allocator hands out next.
    pub closed spec fn next_inode(self) -> Inode {
        choose|i: Inode| self.is_next_inode(i)
    }


    /// Why registering a file with inode `inode` and remote identifier
    /// `remote` under `parent` is refused, if it is.
    pub closed spec fn add_error(
        self,
        inode: Inode,
        remote: Option<Seq<char>>,
        parent: Option<FileId>,
    ) -> Option<FileError> {
        match parent {
            None => Some(FileError::RootExists),
            Some(p) => if self.resolve(p) is None {
                Some(FileError::NotFound)
            } else if inode == 0 {
                Some(FileError::InvalidInode)
            } else if self.node_ids@.contains_key(inode) {
                Some(FileError::InodeInUse)
            } else if remote matches Some(r) && self.has_remote(r) {
                Some(FileError::DriveIdInUse)
            } else if self.len() + 1 >= u64::MAX {
                Some(FileError::Exhausted)
            } else {
                None
            },
        }
    }

    /// `self` is `old` with one more file, `inode`, registered as the last
    /// child of `parent`; nothing else changed.
    pub closed spec fn added(self, old: FileManager, inode: Inode, parent: Inode) -> bool {
        &&& self.wf()
        &&& !old.file_table().contains_key(inode)
        &&& self.file_table() == old.file_table().insert(inode, self.file_table()[inode])
        &&& self.parent_of(inode) == Some(parent)
        &&& self.children_of(inode) == Seq::<Inode>::empty()
        &&& self.children_of(parent) == old.children_of(parent).push(inode)
        &&& forall|i: Inode|
            #[trigger] old.file_table().contains_key(i) ==> self.parent_of(i) == old.parent_of(i)
        &&& forall|i: Inode|
            #[trigger] old.file_table().contains_key(i) && i != parent ==> self.children_of(i)
                == old.children_of(i)
    }


    /// `self` and `old` hold the same tree and tables; only the queue of
    /// directories to list may differ.
    pub closed spec fn same_files(self, old: FileManager) -> bool {
        &&& self.tree == old.tree
        &&& self.node_ids == old.node_ids
    }


    /// Depth and inode of each node of the subtree at `k`, the node first,
    /// then the subtrees of its children from the last child to the first;
    /// `fuel` bounds the depth explored.
    pub closed spec fn render_node(self, k: int, depth: usize, fuel: nat) -> Seq<(usize, Inode)>
        decreases fuel, 0int,
    {
        if fuel == 0 {
            Seq::empty()
        } else {
            seq![(depth, self.inode_at(k))] + self.render_forest(
                self.tree@[k].children@,
                (depth + 1) as usize,
                (fuel - 1) as nat,
            )
        }
    }

    /// The subtrees at `cs`, the last first.
    pub closed spec fn render_forest(self, cs: Seq<usize>, depth: usize, fuel: nat) -> Seq<
        (usize, Inode),
    >
        decreases fuel, cs.len(),
    {
        if cs.len() == 0 {
            Seq::empty()
        } else {
            self.render_node(cs.last() as int, depth, fuel) + self.render_forest(
                cs.drop_last(),
                depth,
                fuel,
            )
        }
    }

    /// The manager's invariant.
    pub closed spec fn wf(self) -> bool {
        let n = self.tree@.len();
        &&& 0 < n < u64::MAX
        &&& self.tree@[0].parent is None
        &&& forall|k: int|
            0 < k < n ==> (#[trigger] self.tree@[k].parent matches Some(p) && p < k)
        &&& forall|p: int, j: int|
            0 <= p < n && 0 <= j < self.tree@[p].children@.len() ==> {
                let c = #[trigger] self.tree@[p].children@[j];
                &&& p < c < n
                &&& self.tree@[c as int].parent == Some(p as usize)
            }
        &&& forall|k: int|
            0 <= k < n ==> self.node_ids@.contains_key(#[trigger] self.inode_at(k))
                && self.node_ids@[self.inode_at(k)] == k
        &&& forall|i: Inode| #[trigger]
            self.node_ids@.contains_key(i) ==> self.node_ids@[i] < n && self.inode_at(
                self.node_ids@[i] as int,
            ) == i
        &&& !self.node_ids@.contains_key(0)
        &&& self.node_ids@.dom().finite()
        &&& self.node_ids@.len() == n
        &&& forall|a: int, b: int|
            0 <= a < n && 0 <= b < n && a != b && remote_id_of(#[trigger] self.tree@[a].file)
                is Some ==> remote_id_of(self.tree@[a].file) != remote_id_of(
                #[trigger] self.tree@[b].file,
            )
    }

    /// The smallest positive inode number that no registered file holds.
    pub fn next_available_inode(&self) -> (r: Inode)
        requires
            self.wf(),
        ensures
            r > 0,
            !self.node_table().contains_key(r),
            forall|k: Inode| 0 < k < r ==> self.node_table().contains_key(k),
            r == self.next_inode(),
    {
        let mut i: u64 = 1;
        while self.node_ids.contains_key(&i)
            invariant
                self.wf(),
                1 <= i,
                forall|k: Inode| 0 < k < i ==> self.node_ids@.contains_key(k),
            decreases self.tree@.len() + 1 - i,
        {
            proof {
                assert(self.node_ids@.contains_key(i));
                let run = Set::new(|k: u64| 1 <= k <= i);
                lemma_inode_run_len(i);
                assert(run.subset_of(self.node_ids@.dom()));
                vstd::set_lib::lemma_len_subset(run, self.node_ids@.dom());
                assert(i <= self.tree@.len());
            }
            i = i + 1;
        }
        proof {
            assert(self.is_next_inode(i));
            let c = self.next_inode();
            if c != i {
                if c < i {
                    assert(self.node_ids@.contains_key(c));
                } else {
                    assert(self.node_ids@.contains_key(i));
                }
            }
        }
        i
    }


    /// A name lookup among nodes of the tree yields a registered inode.
    proof fn lemma_first_named_registered(self, cs: Seq<usize>, name: Seq<char>)
        requires
            self.wf(),
            forall|j: int| 0 <= j < cs.len() ==> #[trigger] cs[j] < self.len(),
        ensures
            self.first_named(cs, name) matches Some(i) ==> self.node_ids@.contains_key(i),
        decreases cs.len(),
    {
        if cs.len() > 0 {
            assert(cs[0] < self.len());
            assert(self.node_ids@.contains_key(self.inode_at(cs[0] as int)));
            assert forall|j: int| 0 <= j < cs.drop_first().len() implies #[trigger] cs.drop_first()[j]
                < self.len() by {
                assert(cs[j + 1] < self.len());
            }
            self.lemma_first_named_registered(cs.drop_first(), name);
        }
    }

    /// Every identifier that resolves denotes a registered inode.
    proof fn lemma_resolved_registered(self, id: FileId)
        requires
            self.wf(),
        ensures
            self.resolve(id) matches Some(i) ==> self.node_ids@.contains_key(i),
    {
        match id {
            FileId::DriveId(r) => {
                if self.has_remote(r@) {
                    let k = choose|k: int|
                        0 <= k < self.len() && remote_id_of(#[trigger] self.tree@[k].file) == Some(r@);
                    assert(self.node_ids@.contains_key(self.inode_at(k)));
                }
            },
            FileId::NodeId(n) => {
                if n.index < self.len() {
                    assert(self.node_ids@.contains_key(self.inode_at(n.index as int)));
                }
            },
            FileId::ParentAndName { parent, name } => {
                if self.node_ids@.contains_key(parent) {
                    let p = self.node_ids@[parent] as int;
                    assert(forall|j: int| 0 <= j < self.tree@[p].children@.len()
                        ==> #[trigger] self.tree@[p].children@[j] < self.len());
                    self.lemma_first_named_registered(self.tree@[p].children@, name@);
                }
            },
            _ => {},
        }
    }


    /// The arena after appending a node under `p` satisfies the invariant and
    /// reads as `prev` with one more file.
    proof fn lemma_added(self, prev: FileManager, inode: Inode, pi: Inode, p: int, m: usize)
        requires
            prev.len() == m,
            prev.wf(),
            inode != 0,
            !prev.node_ids@.contains_key(inode),
            remote_id_of(self.tree@[prev.len() as int].file) is Some ==> !prev.has_remote(
                remote_id_of(self.tree@[prev.len() as int].file).unwrap(),
            ),
            prev.len() + 1 < u64::MAX,
            prev.node_ids@.contains_key(pi),
            prev.node_ids@[pi] == p,
            self.tree@.len() == prev.len() + 1,
            self.tree@[prev.len() as int].file.inode == inode,
            self.tree@[prev.len() as int].parent == Some(p as usize),
            self.tree@[prev.len() as int].children@ == Seq::<usize>::empty(),
            self.tree@[p].file == prev.tree@[p].file,
            self.tree@[p].parent == prev.tree@[p].parent,
            self.tree@[p].children@ == prev.tree@[p].children@.push(m),
            forall|k: int| 0 <= k < prev.len() && k != p ==> #[trigger] self.tree@[k] == prev.tree@[k],
            self.node_ids@ == prev.node_ids@.insert(inode, m),
            self.pending == prev.pending,
        ensures
            self.added(prev, inode, pi),
            self.pending() == prev.pending(),
    {
        let n = prev.len() as int;
        assert forall|k: int| 0 <= k < n implies #[trigger] self.tree@[k].file == prev.tree@[k].file
            && self.tree@[k].parent == prev.tree@[k].parent by {
            if k != p {
                assert(self.tree@[k] == prev.tree@[k]);
            }
        }
        assert forall|k: int| 0 < k < n + 1 implies (#[trigger] self.tree@[k].parent matches Some(q)
            && q < k) by {
            if k < n {
                assert(prev.tree@[k].parent matches Some(q) && q < k);
            }
        }
        assert forall|q: int, j: int|
            0 <= q < n + 1 && 0 <= j < self.tree@[q].children@.len() implies {
            let c = #[trigger] self.tree@[q].children@[j];
            &&& q < c < n + 1
            &&& self.tree@[c as int].parent == Some(q as usize)
        } by {
            if q == p {
                if j < prev.tree@[p].children@.len() {
                    let c = prev.tree@[p].children@[j];
                    assert(self.tree@[q].children@[j] == c);
                    assert(self.tree@[c as int].file == prev.tree@[c as int].file);
                }
            } else if q < n {
                assert(self.tree@[q] == prev.tree@[q]);
                let c = prev.tree@[q].children@[j];
                assert(self.tree@[q].children@[j] == c);
                assert(self.tree@[c as int].file == prev.tree@[c as int].file);
            }
        }
        assert forall|k: int| 0 <= k < n + 1 implies self.node_ids@.contains_key(
            #[trigger] self.inode_at(k),
        ) && self.node_ids@[self.inode_at(k)] == k by {
            if k < n {
                assert(prev.inode_at(k) == self.inode_at(k));
                assert(prev.node_ids@.contains_key(prev.inode_at(k)));
            }
        }
        assert forall|i: Inode| #[trigger] self.node_ids@.contains_key(i) implies self.node_ids@[i] < n
            + 1 && self.inode_at(self.node_ids@[i] as int) == i by {
            if i != inode {
                assert(prev.node_ids@.contains_key(i));
                assert(prev.inode_at(prev.node_ids@[i] as int) == i);
            }
        }
        assert forall|a: int, b: int|
            0 <= a < n + 1 && 0 <= b < n + 1 && a != b && remote_id_of(
                #[trigger] self.tree@[a].file,
            ) is Some implies remote_id_of(self.tree@[a].file) != remote_id_of(
            #[trigger] self.tree@[b].file,
        ) by {
            if a < n && b < n {
                assert(remote_id_of(prev.tree@[a].file) != remote_id_of(prev.tree@[b].file));
            } else if a == n {
                if remote_id_of(self.tree@[a].file) == remote_id_of(self.tree@[b].file) {
                    assert(prev.tree@[b].file == self.tree@[b].file);
                    assert(prev.has_remote(remote_id_of(self.tree@[a].file).unwrap()));
                }
            } else {
                if remote_id_of(self.tree@[a].file) == remote_id_of(self.tree@[b].file) {
                    assert(prev.tree@[a].file == self.tree@[a].file);
                    assert(prev.has_remote(remote_id_of(self.tree@[b].file).unwrap()));
                }
            }
        }
        assert(self.node_ids@.dom() =~= prev.node_ids@.dom().insert(inode));
        assert(self.wf());
        assert(self.file_table() =~= prev.file_table().insert(inode, self.file_table()[inode]));
        assert forall|i: Inode| #[trigger] prev.file_table().contains_key(i) implies self.parent_of(i)
            == prev.parent_of(i) by {
            let k = prev.node_ids@[i] as int;
            assert(self.node_ids@[i] as int == k);
            if let Some(q) = prev.tree@[k].parent {
                assert(q < k);
            }
        }
        assert forall|i: Inode| #[trigger]
            prev.file_table().contains_key(i) && i != pi implies self.children_of(i)
            == prev.children_of(i) by {
            let k = prev.node_ids@[i] as int;
            assert(self.node_ids@[i] as int == k);
            assert(k != p);
            assert(self.tree@[k] == prev.tree@[k]);
            assert forall|j: int| 0 <= j < prev.tree@[k].children@.len() implies self.inode_at(
                #[trigger] prev.tree@[k].children@[j] as int,
            ) == prev.inode_at(prev.tree@[k].children@[j] as int) by {
                assert(prev.tree@[k].children@[j] < n);
            }
            assert(self.children_of(i) =~= prev.children_of(i));
        }
        assert forall|j: int| 0 <= j < prev.tree@[p].children@.len() implies self.inode_at(
            #[trigger] prev.tree@[p].children@[j] as int,
        ) == prev.inode_at(prev.tree@[p].children@[j] as int) by {
            assert(prev.tree@[p].children@[j] < n);
        }
        assert(self.node_ids@[pi] as int == p);
        assert(self.children_of(pi) =~= prev.children_of(pi).push(inode));
        assert(self.children_of(inode) =~= Seq::<Inode>::empty());
    }


    /// The invariant depends on the tree and the inode table alone.
    proof fn lemma_same_files_wf(self, old: FileManager)
        requires
            old.wf(),
            self.tree == old.tree,
            self.node_ids == old.node_ids,
        ensures
            self.wf(),
            self.same_files(old),
            self.file_table() == old.file_table(),
            forall|i: Inode| #[trigger] self.children_of(i) == old.children_of(i),
            forall|i: Inode| #[trigger] self.parent_of(i) == old.parent_of(i),
    {
        assert(self.tree@ == old.tree@);
        assert(self.node_ids@ == old.node_ids@);
        assert forall|k: int| #[trigger] self.inode_at(k) == old.inode_at(k) by {}
        assert(self.file_table() =~= old.file_table());
        assert forall|i: Inode| #[trigger] self.children_of(i) == old.children_of(i) by {
            assert(self.children_of(i) =~= old.children_of(i));
        }
    }


    /// Changing the metadata of one file keeps the invariant.
    proof fn lemma_attr_update_wf(self, new: FileManager, k: int)
        requires
            self.wf(),
            0 <= k < self.len(),
            new.node_ids == self.node_ids,
            new.tree@.len() == self.tree@.len(),
            forall|j: int| 0 <= j < self.len() && j != k ==> #[trigger] new.tree@[j] == self.tree@[j],
            new.tree@[k].file.inode == self.tree@[k].file.inode,
            new.tree@[k].file.drive_file == self.tree@[k].file.drive_file,
            new.tree@[k].parent == self.tree@[k].parent,
            new.tree@[k].children@ == self.tree@[k].children@,
        ensures
            new.wf(),
    {
        let n = self.len() as int;
        assert forall|j: int| 0 <= j < n implies #[trigger] new.tree@[j].file.inode
            == self.tree@[j].file.inode && remote_id_of(new.tree@[j].file) == remote_id_of(
            self.tree@[j].file,
        ) && new.tree@[j].parent == self.tree@[j].parent && new.tree@[j].children@
            == self.tree@[j].children@ by {
            if j != k {
                assert(new.tree@[j] == self.tree@[j]);
            }
        }
        assert forall|j: int| 0 <= j < n implies #[trigger] new.inode_at(j) == self.inode_at(j) by {
            assert(new.tree@[j].file.inode == self.tree@[j].file.inode);
        }
        assert forall|p: int, j: int|
            0 <= p < n && 0 <= j < new.tree@[p].children@.len() implies {
            let c = #[trigger] new.tree@[p].children@[j];
            &&& p < c < n
            &&& new.tree@[c as int].parent == Some(p as usize)
        } by {
            assert(new.tree@[p].children@ == self.tree@[p].children@);
            let c = self.tree@[p].children@[j];
            assert(self.tree@[p].children@[j] < n);
            assert(new.tree@[c as int].parent == self.tree@[c as int].parent);
        }
        assert forall|a: int, b: int|
            0 <= a < n && 0 <= b < n && a != b && remote_id_of(#[trigger] new.tree@[a].file)
                is Some implies remote_id_of(new.tree@[a].file) != remote_id_of(
            #[trigger] new.tree@[b].file,
        ) by {
            assert(remote_id_of(new.tree@[a].file) == remote_id_of(self.tree@[a].file));
            assert(remote_id_of(new.tree@[b].file) == remote_id_of(self.tree@[b].file));
            assert(remote_id_of(self.tree@[a].file) != remote_id_of(self.tree@[b].file));
        }
        assert forall|j: int| 0 < j < n implies (#[trigger] new.tree@[j].parent matches Some(q) && q
            < j) by {
            assert(new.tree@[j].parent == self.tree@[j].parent);
            assert(self.tree@[j].parent matches Some(q) && q < j);
        }
    }

    /// Index of the node whose file carries the remote identifier `r`.
    fn find_remote(&self, r: &String) -> (k: Option<usize>)
        requires
            self.wf(),
        ensures
            match k {
                Some(k) => k < self.len() && remote_id_of(self.tree@[k as int].file) == Some(r@)
                    && self.has_remote(r@) && self.remote_inode(r@) == self.inode_at(k as int),
                None => !self.has_remote(r@),
            },
    {
        let mut k: usize = 0;
        while k < self.tree.len()
            invariant
                self.wf(),
                k <= self.tree@.len(),
                forall|j: int| 0 <= j < k ==> remote_id_of(#[trigger] self.tree@[j].file) != Some(r@),
            decreases self.tree@.len() - k,
        {
            let found = match &self.tree[k].file.drive_file {
                Some(d) => match &d.id {
                    Some(id) => id.eq(r),
                    None => false,
                },
                None => false,
            };
            if found {
                proof {
                    assert(remote_id_of(self.tree@[k as int].file) == Some(r@));
                    let c = choose|j: int|
                        0 <= j < self.len() && remote_id_of(#[trigger] self.tree@[j].file) == Some(r@);
                    if c != k as int {
                        assert(remote_id_of(self.tree@[k as int].file) != remote_id_of(self.tree@[c].file));
                    }
                }
                return Some(k);
            }
            k = k + 1;
        }
        None
    }

    /// The first of `cs` whose file is named `name`, as an inode.
    fn find_named(&self, cs: &Vec<usize>, name: &String) -> (r: Option<Inode>)
        requires
            self.wf(),
            forall|j: int| 0 <= j < cs@.len() ==> #[trigger] cs@[j] < self.len(),
        ensures
            r == self.first_named(cs@, name@),
    {
        let mut j: usize = 0;
        assert(cs@.subrange(0, cs@.len() as int) =~= cs@);
        while j < cs.len()
            invariant
                self.wf(),
                forall|j: int| 0 <= j < cs@.len() ==> #[trigger] cs@[j] < self.len(),
                j <= cs@.len(),
                self.first_named(cs@.subrange(j as int, cs@.len() as int), name@)
                    == self.first_named(cs@, name@),
            decreases cs@.len() - j,
        {
            let c = cs[j];
            let ghost rest = cs@.subrange(j as int, cs@.len() as int);
            assert(rest[0] == c);
            assert(rest.drop_first() =~= cs@.subrange(j + 1, cs@.len() as int));
            if self.tree[c].file.name.eq(name) {
                return Some(self.tree[c].file.inode);
            }
            j = j + 1;
        }
        assert(cs@.subrange(j as int, cs@.len() as int) =~= Seq::<usize>::empty());
        None
    }

    /// The inode that `id` denotes, if it resolves.
    pub fn get_inode(&self, id: FileId) -> (r: Option<Inode>)
        requires
            self.wf(),
        ensures
            r == self.resolve(id),
    {
        match id {
            FileId::Inode(inode) => if self.node_ids.contains_key(&inode) {
                Some(inode)
            } else {
                None
            },
            FileId::DriveId(drive_id) => match self.find_remote(&drive_id) {
                Some(k) => Some(self.tree[k].file.inode),
                None => None,
            },
            FileId::NodeId(node_id) => if node_id.index < self.tree.len() {
                Some(self.tree[node_id.index].file.inode)
            } else {
                None
            },
            FileId::ParentAndName { parent, name } => match self.node_ids.get(&parent) {
                Some(p) => {
                    let p = *p;
                    proof {
                        assert(forall|j: int| 0 <= j < self.tree@[p as int].children@.len()
                            ==> #[trigger] self.tree@[p as int].children@[j] < self.len());
                    }
                    self.find_named(&self.tree[p].children, &name)
                },
                None => None,
            },
        }
    }

    /// Whether `id` denotes a registered file.
    pub fn contains(&self, id: FileId) -> (r: bool)
        requires
            self.wf(),
        ensures
            r == self.resolve(id) is Some,
    {
        self.get_inode(id).is_some()
    }

    /// The tree position of the file that `id` denotes.
    pub fn get_node_id(&self, id: FileId) -> (r: Option<NodeId>)
        requires
            self.wf(),
        ensures
            match self.resolve(id) {
                Some(i) => r == Some(NodeId { index: self.node_table()[i] }),
                None => r is None,
            },
    {
        proof {
            self.lemma_resolved_registered(id);
        }
        match self.get_inode(id) {
            Some(inode) => match self.node_ids.get(&inode) {
                Some(n) => Some(NodeId { index: *n }),
                None => None,
            },
            None => None,
        }
    }

    /// The file that `id` denotes.
    pub fn get_file(&self, id: FileId) -> (r: Option<&File>)
        requires
            self.wf(),
        ensures
            match self.resolve(id) {
                Some(i) => r matches Some(f) && *f == self.file_table()[i],
                None => r is None,
            },
    {
        proof {
            self.lemma_resolved_registered(id);
        }
        match self.get_inode(id) {
            Some(inode) => match self.node_ids.get(&inode) {
                Some(n) => Some(&self.tree[*n].file),
                None => None,
            },
            None => None,
        }
    }

    /// The remote identifier of the file that `id` denotes.
    pub fn get_drive_id(&self, id: FileId) -> (r: Option<String>)
        requires
            self.wf(),
        ensures
            match self.resolve(id) {
                Some(i) => match remote_id_of(self.file_table()[i]) {
                    Some(d) => r matches Some(s) && s@ == d,
                    None => r is None,
                },
                None => r is None,
            },
    {
        match self.get_file(id) {
            Some(f) => f.drive_id(),
            None => None,
        }
    }

    /// The files directly under the directory that `id` denotes, in the
    /// order they were registered.
    pub fn get_children(&self, id: FileId) -> (r: Option<Vec<&File>>)
        requires
            self.wf(),
        ensures
            match self.resolve(id) {
                Some(i) => r matches Some(v) && v@.len() == self.children_of(i).len()
                    && forall|j: int| 0 <= j < v@.len() ==> {
                        &&& #[trigger] v@[j].inode == self.children_of(i)[j]
                        &&& self.file_table().contains_key(self.children_of(i)[j])
                        &&& *v@[j] == self.file_table()[self.children_of(i)[j]]
                    },
                None => r is None,
            },
    {
        proof {
            self.lemma_resolved_registered(id);
        }
        let inode = match self.get_inode(id) {
            Some(inode) => inode,
            None => { return None; },
        };
        let p = match self.node_ids.get(&inode) {
            Some(p) => *p,
            None => { return None; },
        };
        let cs = &self.tree[p].children;
        let mut out: Vec<&File> = Vec::new();
        let mut j: usize = 0;
        while j < cs.len()
            invariant
                self.wf(),
                p < self.len(),
                self.node_ids@.contains_key(inode),
                self.node_ids@[inode] == p,
                cs@ == self.tree@[p as int].children@,
                j <= cs@.len(),
                out@.len() == j,
                forall|k: int| 0 <= k < j ==> {
                    let c = cs@[k];
                    &&& #[trigger] out@[k] == &self.tree@[c as int].file
                },
            decreases cs@.len() - j,
        {
            let c = cs[j];
            proof {
                assert(self.tree@[p as int].children@[j as int] == c);
            }
            out.push(&self.tree[c].file);
            j = j + 1;
        }
        proof {
            assert forall|k: int| 0 <= k < out@.len() implies {
                &&& #[trigger] out@[k].inode == self.children_of(inode)[k]
                &&& self.file_table().contains_key(self.children_of(inode)[k])
                &&& *out@[k] == self.file_table()[self.children_of(inode)[k]]
            } by {
                let c = cs@[k];
                assert(self.tree@[p as int].children@[k] == c);
                assert(c < self.len());
                assert(self.node_ids@[self.inode_at(c as int)] == c);
            }
        }
        Some(out)
    }

    /// Registers `file` as the last child of the directory that `parent`
    /// denotes. Purely local: the remote store is not told. On error nothing
    /// changes.
    pub fn add_file(&mut self, file: File, parent: Option<FileId>) -> (r: Result<(), FileError>)
        requires
            old(self).wf(),
        ensures
            final(self).wf(),
            final(self).pending() == old(self).pending(),
            match old(self).add_error(file.inode, remote_id_of(file), parent) {
                Some(e) => r == Err::<(), FileError>(e) && *final(self) == *old(self),
                None => r is Ok && final(self).added(
                    *old(self),
                    file.inode,
                    old(self).resolve(parent.unwrap()).unwrap(),
                ) && final(self).file_table()[file.inode] == file,
            },
    {
        let parent = match parent {
            Some(p) => p,
            None => { return Err(FileError::RootExists); },
        };
        proof {
            self.lemma_resolved_registered(parent);
        }
        let pi = match self.get_inode(parent) {
            Some(i) => i,
            None => { return Err(FileError::NotFound); },
        };
        if file.inode == 0 {
            return Err(FileError::InvalidInode);
        }
        if self.node_ids.contains_key(&file.inode) {
            return Err(FileError::InodeInUse);
        }
        match file.drive_id() {
            Some(d) => {
                if self.find_remote(&d).is_some() {
                    return Err(FileError::DriveIdInUse);
                }
            },
            None => {},
        }
        if self.tree.len() as u64 >= u64::MAX - 1 {
            return Err(FileError::Exhausted);
        }
        let p = match self.node_ids.get(&pi) {
            Some(p) => *p,
            None => { return Err(FileError::NotFound); },
        };
        let ghost prev = *self;
        let n = self.tree.len();
        let inode = file.inode;
        self.tree.push(TreeNode { file, parent: Some(p), children: Vec::new() });
        self.tree[p].children.push(n);
        self.node_ids.insert(inode, n);
        proof {
            self.lemma_added(prev, inode, pi, p as int, n);
        }
        Ok(())
    }

    /// The mount root: inode 1, named ".", a directory backed by the remote
    /// root `drive_id`.
    pub fn new_root_file(drive_id: String) -> (r: File)
        ensures
            r.inode == 1,
            r.name@ == "."@,
            r.attr == directory_attr_spec(),
            remote_id_of(r) == Some(drive_id@),
    {
        File {
            inode: 1,
            name: ".".to_string(),
            attr: directory_attr(),
            drive_file: Some(RemoteFile { id: Some(drive_id), mime_type: None }),
        }
    }

    /// A virtual directory for the files others shared, with no remote
    /// descriptor, numbered with the next free inode.
    pub fn new_shared_with_me_file(&self) -> (r: File)
        requires
            self.wf(),
        ensures
            r.inode == self.next_inode(),
            r.name@ == "Shared with me"@,
            r.attr == directory_attr_spec(),
            r.drive_file is None,
    {
        File {
            inode: self.next_available_inode(),
            name: "Shared with me".to_string(),
            attr: directory_attr(),
            drive_file: None,
        }
    }

    /// A manager whose tree holds only the mount root, backed by the remote
    /// root `drive_id`, with that root queued for listing.
    pub fn with_root(drive_id: String) -> (r: FileManager)
        ensures
            r.wf(),
            r.file_table().dom() == set![1u64],
            r.file_table()[1].inode == 1,
            r.file_table()[1].name@ == "."@,
            r.file_table()[1].attr == directory_attr_spec(),
            remote_id_of(r.file_table()[1]) == Some(drive_id@),
            r.parent_of(1) is None,
            r.children_of(1) == Seq::<Inode>::empty(),
            r.pending() == seq![drive_id@],
    {
        let root = Self::new_root_file(drive_id.clone());
        let mut tree: Vec<TreeNode> = Vec::new();
        tree.push(TreeNode { file: root, parent: None, children: Vec::new() });
        let mut node_ids: HashMap<Inode, usize> = HashMap::new();
        node_ids.insert(1, 0);
        let mut pending: VecDeque<String> = VecDeque::new();
        pending.push_back(drive_id);
        let r = FileManager { tree, node_ids, pending };
        proof {
            assert(r.node_ids@.dom() =~= set![1u64]);
            assert(r.file_table().dom() =~= set![1u64]);
            assert(r.children_of(1) =~= Seq::<Inode>::empty());
            assert(r.pending() =~= seq![drive_id@]);
        }
        r
    }

    /// Takes the next remote directory whose listing the tree still needs.
    /// `None` once the tree is complete.
    pub fn next_pending(&mut self) -> (r: Option<String>)
        requires
            old(self).wf(),
        ensures
            final(self).wf(),
            final(self).same_files(*old(self)),
            old(self).pending().len() == 0 ==> r is None && final(self).pending() == old(self).pending(),
            old(self).pending().len() > 0 ==> (r matches Some(s) && s@ == old(self).pending()[0]
                && final(self).pending() == old(self).pending().drop_first()),
    {
        let r = self.pending.pop_front();
        proof {
            self.lemma_same_files_wf(*old(self));
            if old(self).pending@.len() > 0 {
                assert(self.pending() =~= old(self).pending().drop_first());
            }
        }
        r
    }

    /// Registers one entry of the listing of the remote directory
    /// `parent_id`: the entry gets the next free inode and becomes the last
    /// child of that directory; a directory entry with a remote identifier is
    /// queued to be listed in turn. Returns the inode given.
    pub fn add_listed_file(&mut self, parent_id: &String, file: File) -> (r: Result<Inode, FileError>)
        requires
            old(self).wf(),
        ensures
            final(self).wf(),
            match old(self).add_error(
                old(self).next_inode(),
                remote_id_of(file),
                Some(FileId::DriveId(*parent_id)),
            ) {
                Some(e) => r == Err::<Inode, FileError>(e) && *final(self) == *old(self),
                None => {
                    let i = old(self).next_inode();
                    &&& r == Ok::<Inode, FileError>(i)
                    &&& final(self).added(*old(self), i, old(self).remote_inode(parent_id@))
                    &&& final(self).file_table()[i].inode == i
                    &&& final(self).file_table()[i].name == file.name
                    &&& final(self).file_table()[i].attr == file.attr
                    &&& final(self).file_table()[i].drive_file == file.drive_file
                    &&& final(self).pending() == if file.attr.kind == FileType::Directory
                        && remote_id_of(file) is Some {
                        old(self).pending().push(remote_id_of(file).unwrap())
                    } else {
                        old(self).pending()
                    }
                },
            },
    {
        let inode = self.next_available_inode();
        let mut file = file;
        file.inode = inode;
        let queued = if file.kind() == FileType::Directory {
            file.drive_id()
        } else {
            None
        };
        let parent = FileId::DriveId(parent_id.clone());
        proof {
            assert(old(self).resolve(parent) == old(self).resolve(FileId::DriveId(*parent_id)));
        }
        match self.add_file(file, Some(parent)) {
            Ok(()) => {
                let ghost mid = self.pending();
                match queued {
                    Some(d) => {
                        let ghost before = *self;
                        self.pending.push_back(d);
                        proof {
                            self.lemma_same_files_wf(before);
                            assert(self.pending() =~= mid.push(d@));
                        }
                    },
                    None => {},
                }
                Ok(inode)
            },
            Err(e) => Err(e),
        }
    }

    /// Registers a file that the remote store has just created under the
    /// identifier `drive_id`: the identifier is attached to the file, which
    /// then becomes the last child of the directory that `parent` denotes.
    pub fn create_file(&mut self, file: File, parent: Option<FileId>, drive_id: String) -> (r:
        Result<(), FileError>)
        requires
            old(self).wf(),
        ensures
            final(self).wf(),
            final(self).pending() == old(self).pending(),
            match old(self).add_error(file.inode, Some(drive_id@), parent) {
                Some(e) => r == Err::<(), FileError>(e) && *final(self) == *old(self),
                None => {
                    &&& r is Ok
                    &&& final(self).added(
                        *old(self),
                        file.inode,
                        old(self).resolve(parent.unwrap()).unwrap(),
                    )
                    &&& final(self).file_table()[file.inode].inode == file.inode
                    &&& final(self).file_table()[file.inode].name == file.name
                    &&& final(self).file_table()[file.inode].attr == file.attr
                    &&& remote_id_of(final(self).file_table()[file.inode]) == Some(drive_id@)
                },
            },
    {
        let mut file = file;
        file.set_drive_id(drive_id);
        self.add_file(file, parent)
    }

    /// The write to send to the remote store for the file that `id`
    /// denotes: its remote identifier, `offset` and `data` unchanged.
    pub fn write(&self, id: FileId, offset: usize, data: &[u8]) -> (r: Result<WriteRequest, FileError>)
        requires
            self.wf(),
        ensures
            match self.resolve(id) {
                None => r == Err::<WriteRequest, FileError>(FileError::NotFound),
                Some(i) => match remote_id_of(self.file_table()[i]) {
                    None => r == Err::<WriteRequest, FileError>(FileError::NoRemote),
                    Some(d) => r matches Ok(w) && w.drive_id@ == d && w.offset == offset
                        && w.data@ == data@,
                },
            },
    {
        proof {
            self.lemma_resolved_registered(id);
        }
        let inode = match self.get_inode(id) {
            Some(i) => i,
            None => { return Err(FileError::NotFound); },
        };
        match self.get_drive_id(FileId::Inode(inode)) {
            Some(drive_id) => Ok(WriteRequest { drive_id, offset, data: vstd::slice::slice_to_vec(data) }),
            None => Err(FileError::NoRemote),
        }
    }

    /// The metadata of the file that `id` denotes, for updating in place.
    /// Only the metadata can change this way: the inode, the name, the tree
    /// position and the remote identifier stay as they are.
    pub fn get_mut_file(&mut self, id: FileId) -> (r: Option<&mut FileAttr>)
        requires
            old(self).wf(),
        ensures
            match old(self).resolve(id) {
                None => r is None && *final(self) == *old(self),
                Some(i) => r is Some && *r.unwrap() == old(self).file_table()[i].attr
                    && final(self).wf()
                    && final(self).file_table() == old(self).file_table().insert(
                        i,
                        File { attr: *final(r.unwrap()), ..old(self).file_table()[i] },
                    ),
            },
    {
        proof {
            self.lemma_resolved_registered(id);
        }
        let inode = match self.get_inode(id) {
            Some(i) => i,
            None => { return None; },
        };
        let k = match self.node_ids.get(&inode) {
            Some(k) => *k,
            None => { return None; },
        };
        proof {
            assert forall|new: FileManager|
                new.node_ids == self.node_ids && new.tree@.len() == self.tree@.len() && (forall|j: int|
                    0 <= j < self.len() && j != k ==> #[trigger] new.tree@[j] == self.tree@[j])
                    && new.tree@[k as int].file.inode == self.tree@[k as int].file.inode
                    && new.tree@[k as int].file.drive_file == self.tree@[k as int].file.drive_file
                    && new.tree@[k as int].parent == self.tree@[k as int].parent
                    && new.tree@[k as int].children@ == self.tree@[k as int].children@ implies #[trigger] new.wf() by {
                self.lemma_attr_update_wf(new, k as int);
            }
        }
        Some(self.attr_mut(k))
    }

    /// The metadata of the file at node `k`, for updating in place.
    fn attr_mut(&mut self, k: usize) -> (r: &mut FileAttr)
        requires
            old(self).wf(),
            k < old(self).len(),
        ensures
            *r == old(self).tree@[k as int].file.attr,
            final(self).node_ids == old(self).node_ids,
            final(self).pending == old(self).pending,
            final(self).tree@.len() == old(self).tree@.len(),
            forall|j: int| 0 <= j < old(self).len() && j != k ==> #[trigger] final(self).tree@[j]
                == old(self).tree@[j],
            final(self).tree@[k as int].file == (File {
                attr: *final(r),
                ..old(self).tree@[k as int].file
            }),
            final(self).tree@[k as int].parent == old(self).tree@[k as int].parent,
            final(self).tree@[k as int].children@ == old(self).tree@[k as int].children@,
    {
        &mut self.tree[k].file.attr
    }

    /// Appends the rendering of the subtree at `k` to `out`.
    fn render_into(&self, k: usize, depth: usize, fuel: usize, out: &mut Vec<(usize, Inode)>)
        requires
            self.wf(),
            k < self.len(),
            depth + fuel <= self.len(),
            self.len() <= usize::MAX,
        ensures
            final(out)@ == old(out)@ + self.render_node(k as int, depth, fuel as nat),
        decreases fuel,
    {
        if fuel == 0 {
            assert(old(out)@ + self.render_node(k as int, depth, 0) =~= old(out)@);
            return;
        }
        let ghost base = out@;
        let ghost head = seq![(depth, self.inode_at(k as int))];
        out.push((depth, self.tree[k].file.inode));
        let cs = &self.tree[k].children;
        let ghost whole = self.render_forest(cs@, (depth + 1) as usize, (fuel - 1) as nat);
        let mut j: usize = cs.len();
        assert(cs@.subrange(0, j as int) =~= cs@);
        assert(out@ =~= base + head);
        while j > 0
            invariant
                self.wf(),
                k < self.len(),
                depth + fuel <= self.len(),
                self.len() <= usize::MAX,
                fuel > 0,
                cs@ == self.tree@[k as int].children@,
                j <= cs@.len(),
                out@ + self.render_forest(cs@.subrange(0, j as int), (depth + 1) as usize, (fuel - 1) as nat)
                    == base + head + whole,
            decreases j,
        {
            let c = cs[j - 1];
            assert(self.tree@[k as int].children@[j - 1] == c);
            let ghost before = out@;
            let ghost sub = cs@.subrange(0, j as int);
            assert(sub.last() == c);
            assert(sub.drop_last() =~= cs@.subrange(0, j - 1));
            self.render_into(c, depth + 1, fuel - 1, out);
            let ghost node = self.render_node(c as int, (depth + 1) as usize, (fuel - 1) as nat);
            let ghost rest = self.render_forest(cs@.subrange(0, j - 1), (depth + 1) as usize, (fuel - 1) as nat);
            assert(self.render_forest(sub, (depth + 1) as usize, (fuel - 1) as nat) == node + rest);
            assert(out@ + rest =~= before + (node + rest));
            j = j - 1;
        }
        assert(cs@.subrange(0, 0) =~= Seq::<usize>::empty());
        assert(out@ =~= base + head + whole);
        assert(head + whole =~= self.render_node(k as int, depth, fuel as nat));
        assert(out@ =~= old(out)@ + self.render_node(k as int, depth, fuel as nat));
    }

    /// The diagnostic view of the tree: depth and inode of every node, depth
    /// first from the root, each node before its children, the children from
    /// the last registered to the first.
    pub fn tree_lines(&self) -> (r: Vec<(usize, Inode)>)
        requires
            self.wf(),
        ensures
            r@ == self.render_node(0, 0, self.len()),
    {
        let mut out: Vec<(usize, Inode)> = Vec::new();
        self.render_into(0, 0, self.tree.len(), &mut out);
        assert(out@ =~= self.render_node(0, 0, self.len()));
        out
    }
}

/// The inode table and the file table have the same keys: every registered
/// file has exactly one tree position and one record, the record carries the
/// inode it is filed under, and the node at that position carries it too.
/// Registration keeps the invariant, so this holds after any sequence of
/// `add_file`, `create_file` and `add_listed_file`.
pub proof fn lemma_tables_consistent(m: FileManager)
    requires
        m.wf(),
    ensures
        forall|i: Inode| m.node_table().contains_key(i) <==> m.file_table().contains_key(i),
        forall|i: Inode| #[trigger]
            m.file_table().contains_key(i) ==> m.file_table()[i].inode == i && m.resolve(
                FileId::NodeId(NodeId { index: m.node_table()[i] }),
            ) == Some(i),
{
}

/// Two distinct registered files never carry the same remote identifier.
pub proof fn lemma_remote_ids_distinct(m: FileManager, a: Inode, b: Inode)
    requires
        m.wf(),
        m.file_table().contains_key(a),
        m.file_table().contains_key(b),
        a != b,
        remote_id_of(m.file_table()[a]) is Some,
    ensures
        remote_id_of(m.file_table()[a]) != remote_id_of(m.file_table()[b]),
{
    let ka = m.node_ids@[a] as int;
    let kb = m.node_ids@[b] as int;
    assert(ka != kb);
    assert(remote_id_of(m.tree@[ka].file) != remote_id_of(m.tree@[kb].file));
}

/// Exactly one registered file has no parent, and every other file's parent
/// is registered.
pub proof fn lemma_single_root(m: FileManager)
    requires
        m.wf(),
    ensures
        exists|r: Inode|
            {
                &&& #[trigger] m.file_table().contains_key(r)
                &&& m.parent_of(r) is None
                &&& forall|i: Inode| #[trigger]
                    m.file_table().contains_key(i) && m.parent_of(i) is None ==> i == r
            },
        forall|i: Inode| #[trigger]
            m.file_table().contains_key(i) && m.parent_of(i) is Some ==> m.file_table().contains_key(
                m.parent_of(i).unwrap(),
            ),
{
    let r = m.inode_at(0);
    assert(m.node_ids@.contains_key(r));
    assert forall|i: Inode| #[trigger]
        m.file_table().contains_key(i) && m.parent_of(i) is None implies i == r by {
        let k = m.node_ids@[i] as int;
        if k > 0 {
            assert(m.tree@[k].parent is Some);
        }
    }
    assert(m.file_table().contains_key(r) && m.parent_of(r) is None);
    assert forall|i: Inode| #[trigger]
        m.file_table().contains_key(i) && m.parent_of(i) is Some implies m.file_table().contains_key(
        m.parent_of(i).unwrap(),
    ) by {
        let k = m.node_ids@[i] as int;
        if k > 0 {
            assert(m.tree@[k].parent matches Some(q) && q < k);
            let q = m.tree@[k].parent.unwrap() as int;
            assert(m.node_ids@.contains_key(m.inode_at(q)));
        }
    }
}

/// A registered file with remote identifier `r` and inode `i` is found
/// under `r`, and looking it up by `i` gives back `r`.
pub proof fn lemma_resolution_round_trip(m: FileManager, i: Inode, r: String)
    requires
        m.wf(),
        m.file_table().contains_key(i),
        remote_id_of(m.file_table()[i]) == Some(r@),
    ensures
        m.resolve(FileId::DriveId(r)) == Some(i),
        m.resolve(FileId::Inode(i)) == Some(i),
        remote_id_of(m.file_table()[m.resolve(FileId::Inode(i)).unwrap()]) == Some(r@),
{
    let k = m.node_ids@[i] as int;
    assert(remote_id_of(m.tree@[k].file) == Some(r@));
    assert(m.has_remote(r@));
    let c = choose|c: int| 0 <= c < m.len() && remote_id_of(#[trigger] m.tree@[c].file) == Some(r@);
    if c != k {
        assert(remote_id_of(m.tree@[k].file) != remote_id_of(m.tree@[c].file));
    }
}

} // verus!
