//! The tree: the parsed hierarchy, the structural validation that admits a
//! node list into a well-formed tree, the traversals over nodes and children,
//! and the lemmas about root, parents and traversal stability.

use vstd::prelude::*;

use crate::handle::HandleLedger;
use crate::handle::NodeHandle;
use crate::model::Node;
use crate::model::NodeRecord;
use crate::model::NO_PARENT;
use crate::util::bytes_eq;
use crate::util::copy_node;

verus! {

/// A node's variable or procedure table holds an entry with neither a value
/// nor a declaration.
pub open spec fn has_empty_entry(n: NodeRecord) -> bool {
    ||| exists|i: int| 0 <= i < n.vars.len() && !(#[trigger] n.vars[i]).wf()
    ||| exists|i: int| 0 <= i < n.procs.len() && !(#[trigger] n.procs[i]).wf()
}

/// A node's variable or procedure table uses one name twice.
pub open spec fn has_dup_name(n: NodeRecord) -> bool {
    ||| exists|i: int, j: int|
        0 <= i < j < n.vars.len() && (#[trigger] n.vars[i]).name == (#[trigger] n.vars[j]).name
    ||| exists|i: int, j: int|
        0 <= i < j < n.procs.len() && (#[trigger] n.procs[i]).name == (#[trigger] n.procs[j]).name
}

/// What makes a node list a well-formed tree: at least the root, indices
/// dense and in order, the sentinel parent exactly at the root with the empty
/// path, every other parent strictly earlier in the list, every node's tables
/// well formed, and the dotted path unique to its node.
pub open spec fn tree_valid(ns: Seq<NodeRecord>) -> bool {
    &&& 1 <= ns.len() <= NO_PARENT as int
    &&& forall|i: int| 0 <= i < ns.len() ==> (#[trigger] ns[i]).index == i
    &&& ns[0].parent_index == NO_PARENT
    &&& ns[0].path.len() == 0
    &&& forall|i: int| 1 <= i < ns.len() ==> (#[trigger] ns[i]).parent_index < i
    &&& forall|i: int| 0 <= i < ns.len() ==> (#[trigger] ns[i]).wf()
    &&& forall|i: int, j: int|
        0 <= i < j < ns.len() ==> (#[trigger] ns[i]).path != (#[trigger] ns[j]).path
}

/// Why a node list was refused by `Tree::from_nodes`.
#[derive(Clone, Copy, Debug, PartialEq, Eq, Structural)]
pub enum TreeError {
    /// The list holds no node at all, so there is no root.
    EmptyTree,
    /// The list is too long for dense `u32` indices below the sentinel.
    TooManyNodes,
    /// Some node's stored index is not its position in the list.
    IndexMismatch,
    /// The first node, the root, carries a parent index.
    RootHasParent,
    /// The first node, the root, does not carry the empty path.
    RootPathNotEmpty,
    /// Some non-root node's parent does not stand strictly earlier.
    BadParentIndex,
    /// Some variable or procedure entry has neither value nor declaration.
    EmptyEntry,
    /// Some node uses one variable or procedure name twice.
    DuplicateName,
    /// Two distinct nodes carry the same dotted path.
    DuplicatePath,
}

/// The condition under which each `TreeError` is reported.
pub open spec fn defect_holds(e: TreeError, ns: Seq<NodeRecord>) -> bool {
    match e {
        TreeError::EmptyTree => ns.len() == 0,
        TreeError::TooManyNodes => ns.len() > NO_PARENT as int,
        TreeError::IndexMismatch => exists|i: int|
            0 <= i < ns.len() && (#[trigger] ns[i]).index != i,
        TreeError::RootHasParent => ns.len() > 0 && ns[0].parent_index != NO_PARENT,
        TreeError::RootPathNotEmpty => ns.len() > 0 && ns[0].path.len() != 0,
        TreeError::BadParentIndex => exists|i: int|
            1 <= i < ns.len() && (#[trigger] ns[i]).parent_index >= i,
        TreeError::EmptyEntry => exists|i: int|
            0 <= i < ns.len() && has_empty_entry(#[trigger] ns[i]),
        TreeError::DuplicateName => exists|i: int|
            0 <= i < ns.len() && has_dup_name(#[trigger] ns[i]),
        TreeError::DuplicatePath => exists|i: int, j: int|
            0 <= i < j < ns.len() && (#[trigger] ns[i]).path == (#[trigger] ns[j]).path,
    }
}

/// The diagnostic state produced alongside a tree by the loader; it lives
/// exactly as long as its tree and is released together with it.
pub struct CompilationContext {
    diagnostics: Vec<Vec<u8>>,
}

impl View for CompilationContext {
    type V = Seq<Seq<u8>>;

    closed spec fn view(&self) -> Seq<Seq<u8>> {
        self.diagnostics@.map_values(|d: Vec<u8>| d@)
    }
}

impl CompilationContext {
    /// Wraps the diagnostics the loader collected.
    pub fn new(diagnostics: Vec<Vec<u8>>) -> (r: CompilationContext)
        ensures
            r@ == diagnostics@.map_values(|d: Vec<u8>| d@),
    {
        CompilationContext { diagnostics }
    }

    /// Returns how many diagnostics were collected.
    pub fn diagnostic_count(&self) -> (r: usize)
        ensures
            r == self@.len(),
    {
        self.diagnostics.len()
    }

    /// Reads one diagnostic message.
    pub fn diagnostic(&self, i: usize) -> (r: &Vec<u8>)
        requires
            i < self@.len(),
        ensures
            r@ == self@[i as int],
    {
        &self.diagnostics[i]
    }
}

/// The full parsed hierarchy. It owns all node storage; every exported
/// handle duplicates what it refers to.
#[derive(Debug)]
pub struct Tree {
    nodes: Vec<Node>,
}

impl View for Tree {
    type V = Seq<NodeRecord>;

    closed spec fn view(&self) -> Seq<NodeRecord> {
        self.nodes@.map_values(|n: Node| n@)
    }
}

impl Tree {
    /// The tree's structural invariant.
    pub open spec fn wf(self) -> bool {
        tree_valid(self@)
    }

    /// Admits a node list into a tree, or reports the first defect found.
    /// Succeeds exactly on well-formed lists, and keeps the list unchanged.
    pub fn from_nodes(nodes: Vec<Node>) -> (r: Result<Tree, TreeError>)
        ensures
            r is Ok <==> tree_valid(nodes@.map_values(|n: Node| n@)),
            r matches Ok(t) ==> t@ == nodes@.map_values(|n: Node| n@) && t.wf(),
            r matches Err(e) ==> defect_holds(e, nodes@.map_values(|n: Node| n@)),
    {
        let ghost ns = nodes@.map_values(|n: Node| n@);
        if nodes.len() == 0 {
            return Err(TreeError::EmptyTree);
        }
        if nodes.len() > NO_PARENT as usize {
            return Err(TreeError::TooManyNodes);
        }
        let n = nodes.len();
        let mut i: usize = 0;
        while i < n
            invariant
                n == ns.len(),
                n <= NO_PARENT as usize,
                i <= n,
                nodes@.map_values(|n: Node| n@) == ns,
                forall|k: int| 0 <= k < i ==> (#[trigger] ns[k]).index == k,
            decreases n - i,
        {
            if nodes[i].index as usize != i {
                proof {
                    assert(ns[i as int].index != i as int);
                }
                return Err(TreeError::IndexMismatch);
            }
            i = i + 1;
        }
        if nodes[0].parent_index != NO_PARENT {
            return Err(TreeError::RootHasParent);
        }
        if nodes[0].path.len() != 0 {
            return Err(TreeError::RootPathNotEmpty);
        }
        let mut i: usize = 1;
        while i < n
            invariant
                n == ns.len(),
                n <= NO_PARENT as usize,
                1 <= i <= n,
                nodes@.map_values(|n: Node| n@) == ns,
                forall|k: int| 1 <= k < i ==> (#[trigger] ns[k]).parent_index < k,
            decreases n - i,
        {
            if nodes[i].parent_index as usize >= i {
                proof {
                    assert(ns[i as int].parent_index >= i as int);
                }
                return Err(TreeError::BadParentIndex);
            }
            i = i + 1;
        }
        let mut i: usize = 0;
        while i < n
            invariant
                n == ns.len(),
                i <= n,
                nodes@.map_values(|n: Node| n@) == ns,
                forall|a: int, b: int|
                    0 <= a < i && a < b < n ==> (#[trigger] ns[a]).path != (#[trigger] ns[b]).path,
            decreases n - i,
        {
            let mut j: usize = i + 1;
            while j < n
                invariant
                    n == ns.len(),
                    i < n,
                    i < j <= n,
                    nodes@.map_values(|n: Node| n@) == ns,
                    forall|b: int| i < b < j ==> (#[trigger] ns[b]).path != ns[i as int].path,
                decreases n - j,
            {
                if bytes_eq(&nodes[i].path, &nodes[j].path) {
                    proof {
                        assert(ns[i as int].path == ns[j as int].path);
                    }
                    return Err(TreeError::DuplicatePath);
                }
                j = j + 1;
            }
            i = i + 1;
        }
        let mut i: usize = 0;
        while i < n
            invariant
                n == ns.len(),
                i <= n,
                nodes@.map_values(|n: Node| n@) == ns,
                forall|k: int| 0 <= k < i ==> (#[trigger] ns[k]).wf(),
            decreases n - i,
        {
            match check_node(&nodes[i]) {
                Some(e) => {
                    proof {
                        assert(ns[i as int] == nodes@[i as int]@);
                        if e == TreeError::EmptyEntry {
                            assert(has_empty_entry(ns[i as int]));
                        } else {
                            assert(has_dup_name(ns[i as int]));
                        }
                        assert(!ns[i as int].wf());
                        assert(defect_holds(e, ns));
                    }
                    return Err(e);
                },
                None => {},
            }
            i = i + 1;
        }
        let t = Tree { nodes };
        proof {
            assert(t.wf());
        }
        Ok(t)
    }

    /// Returns how many nodes the tree holds.
    pub fn node_count(&self) -> (r: u32)
        requires
            self.wf(),
        ensures
            r == self@.len(),
    {
        self.nodes.len() as u32
    }

    /// Allocates a handle to the tree's root node.
    pub fn root(&self, ledger: &mut HandleLedger) -> (r: NodeHandle)
        requires
            self.wf(),
            old(ledger).wf(),
            old(ledger).spec_allocated() < u64::MAX,
        ensures
            r@ == self@[0],
            final(ledger).wf(),
            final(ledger).spec_allocated() == old(ledger).spec_allocated() + 1,
            final(ledger).spec_released() == old(ledger).spec_released(),
    {
        ledger.record_alloc();
        NodeHandle::wrap(copy_node(&self.nodes[0]))
    }

    /// Visits every node of the tree once, in index order, allocating one
    /// handle per node; the visited sequence is exactly the tree's node list,
    /// so repeated traversals visit the same nodes in the same order.
    pub fn for_each_node(&self, ledger: &mut HandleLedger) -> (r: Vec<NodeHandle>)
        requires
            self.wf(),
            old(ledger).wf(),
            old(ledger).spec_allocated() + self@.len() <= u64::MAX,
        ensures
            r@.map_values(|h: NodeHandle| h@) == self@,
            final(ledger).wf(),
            final(ledger).spec_allocated() == old(ledger).spec_allocated() + self@.len(),
            final(ledger).spec_released() == old(ledger).spec_released(),
    {
        let mut out: Vec<NodeHandle> = Vec::new();
        let n = self.nodes.len();
        let mut i: usize = 0;
        while i < n
            invariant
                n == self@.len(),
                i <= n,
                self.wf(),
                out@.len() == i,
                forall|k: int| 0 <= k < i ==> (#[trigger] out@[k])@ == self@[k],
                ledger.wf(),
                ledger.spec_allocated() == old(ledger).spec_allocated() + i,
                ledger.spec_released() == old(ledger).spec_released(),
                old(ledger).spec_allocated() + n <= u64::MAX,
            decreases n - i,
        {
            ledger.record_alloc();
            out.push(NodeHandle::wrap(copy_node(&self.nodes[i])));
            i = i + 1;
        }
        proof {
            assert(out@.map_values(|h: NodeHandle| h@) =~= self@);
        }
        out
    }

    /// Visits the direct children of the given node, in declaration (index)
    /// order, allocating one handle per child: exactly the nodes whose parent
    /// index equals the given node's index, no more, no fewer.
    pub fn for_each_child(&self, parent: &NodeHandle, ledger: &mut HandleLedger) -> (r: Vec<
        NodeHandle,
    >)
        requires
            self.wf(),
            old(ledger).wf(),
            old(ledger).spec_allocated() + self@.len() <= u64::MAX,
        ensures
            r@.map_values(|h: NodeHandle| h@) == self@.filter(
                |n: NodeRecord| n.parent_index == parent@.index,
            ),
            final(ledger).wf(),
            final(ledger).spec_allocated() == old(ledger).spec_allocated() + self@.filter(
                |n: NodeRecord| n.parent_index == parent@.index,
            ).len(),
            final(ledger).spec_released() == old(ledger).spec_released(),
    {
        let ghost pred = |n: NodeRecord| n.parent_index == parent@.index;
        let target = parent.get_index();
        let mut out: Vec<NodeHandle> = Vec::new();
        let n = self.nodes.len();
        let mut i: usize = 0;
        proof {
            assert(self@.take(0int).filter(pred) =~= Seq::<NodeRecord>::empty()) by {
                reveal(Seq::filter);
            }
        }
        while i < n
            invariant
                n == self@.len(),
                i <= n,
                self.wf(),
                pred == (|n: NodeRecord| n.parent_index == parent@.index),
                target == parent@.index,
                out@.map_values(|h: NodeHandle| h@) == self@.take(i as int).filter(pred),
                ledger.wf(),
                ledger.spec_allocated() == old(ledger).spec_allocated() + self@.take(
                    i as int,
                ).filter(pred).len(),
                ledger.spec_released() == old(ledger).spec_released(),
                old(ledger).spec_allocated() + n <= u64::MAX,
            decreases n - i,
        {
            proof {
                assert(self@.take(i + 1int).drop_last() =~= self@.take(i as int));
                assert(self@.take(i + 1int).last() == self@[i as int]);
                reveal(Seq::filter);
                assert(self@.take(i + 1int).filter(pred) == self@.take(i as int).filter(pred)
                    + (if pred(self@[i as int]) {
                    seq![self@[i as int]]
                } else {
                    Seq::<NodeRecord>::empty()
                }));
                self@.take(i as int).lemma_filter_len(pred);
                assert(self@.take(i as int).filter(pred).len() <= i);
            }
            if self.nodes[i].parent_index == target {
                ledger.record_alloc();
                out.push(NodeHandle::wrap(copy_node(&self.nodes[i])));
                proof {
                    assert(out@.map_values(|h: NodeHandle| h@) =~= self@.take(i + 1int).filter(
                        pred,
                    ));
                }
            } else {
                proof {
                    assert(out@.map_values(|h: NodeHandle| h@) =~= self@.take(i + 1int).filter(
                        pred,
                    ));
                }
            }
            i = i + 1;
        }
        proof {
            assert(self@.take(n as int) =~= self@);
        }
        out
    }

    /// Releases the tree and its compilation context together; both are
    /// consumed and cannot be used afterwards.
    pub fn unload(self, context: CompilationContext) {
        let _ = self;
        let _ = context;
    }
}

/// Checks one node's tables: reports an empty entry or a duplicated name,
/// and accepts exactly the well-formed nodes.
fn check_node(node: &Node) -> (r: Option<TreeError>)
    ensures
        r is None <==> node@.wf(),
        r matches Some(e) ==> (e == TreeError::EmptyEntry && has_empty_entry(node@)) || (e
            == TreeError::DuplicateName && has_dup_name(node@)),
{
    let nv = node.vars.len();
    let mut i: usize = 0;
    while i < nv
        invariant
            nv == node@.vars.len(),
            i <= nv,
            forall|k: int| 0 <= k < i ==> (#[trigger] node@.vars[k]).wf(),
        decreases nv - i,
    {
        if node.vars[i].value.is_none() && node.vars[i].declaration.is_none() {
            proof {
                assert(!node@.vars[i as int].wf());
            }
            return Some(TreeError::EmptyEntry);
        }
        i = i + 1;
    }
    let np = node.procs.len();
    let mut i: usize = 0;
    while i < np
        invariant
            np == node@.procs.len(),
            i <= np,
            forall|k: int| 0 <= k < i ==> (#[trigger] node@.procs[k]).wf(),
        decreases np - i,
    {
        if node.procs[i].values.len() == 0 && node.procs[i].declaration.is_none() {
            proof {
                assert(!node@.procs[i as int].wf());
            }
            return Some(TreeError::EmptyEntry);
        }
        i = i + 1;
    }
    let mut i: usize = 0;
    while i < nv
        invariant
            nv == node@.vars.len(),
            i <= nv,
            forall|a: int, b: int|
                0 <= a < i && a < b < nv ==> (#[trigger] node@.vars[a]).name != (
                #[trigger] node@.vars[b]).name,
        decreases nv - i,
    {
        let mut j: usize = i + 1;
        while j < nv
            invariant
                nv == node@.vars.len(),
                i < j <= nv,
                i < nv,
                forall|b: int|
                    i < b < j ==> (#[trigger] node@.vars[b]).name != node@.vars[i as int].name,
            decreases nv - j,
        {
            if bytes_eq(&node.vars[i].name, &node.vars[j].name) {
                proof {
                    assert(node@.vars[i as int].name == node@.vars[j as int].name);
                }
                return Some(TreeError::DuplicateName);
            }
            j = j + 1;
        }
        i = i + 1;
    }
    let mut i: usize = 0;
    while i < np
        invariant
            np == node@.procs.len(),
            i <= np,
            forall|a: int, b: int|
                0 <= a < i && a < b < np ==> (#[trigger] node@.procs[a]).name != (
                #[trigger] node@.procs[b]).name,
        decreases np - i,
    {
        let mut j: usize = i + 1;
        while j < np
            invariant
                np == node@.procs.len(),
                i < j <= np,
                i < np,
                forall|b: int|
                    i < b < j ==> (#[trigger] node@.procs[b]).name != node@.procs[i as int].name,
            decreases np - j,
        {
            if bytes_eq(&node.procs[i].name, &node.procs[j].name) {
                proof {
                    assert(node@.procs[i as int].name == node@.procs[j as int].name);
                }
                return Some(TreeError::DuplicateName);
            }
            j = j + 1;
        }
        i = i + 1;
    }
    None
}

/// The root is the one node with the sentinel parent: every other node's
/// parent index is a real index, strictly below the node count.
pub proof fn lemma_root_is_distinguished(t: Tree)
    requires
        t.wf(),
    ensures
        t@[0].parent_index == NO_PARENT,
        forall|i: int|
            1 <= i < t@.len() ==> (#[trigger] t@[i]).parent_index != NO_PARENT && t@[i].parent_index
                < t@.len(),
{
    assert forall|i: int| 1 <= i < t@.len() implies (#[trigger] t@[i]).parent_index != NO_PARENT
        && t@[i].parent_index < t@.len() by {
        assert(t@[i].parent_index < i);
        assert(i < t@.len() <= NO_PARENT as int);
    }
}

/// The dotted path identifies the node within its tree: two positions carry
/// equal paths exactly when they are the same position.
pub proof fn lemma_path_identifies_node(t: Tree, i: int, j: int)
    requires
        t.wf(),
        0 <= i < t@.len(),
        0 <= j < t@.len(),
    ensures
        t@[i].path == t@[j].path <==> i == j,
{
    if i < j {
        assert(t@[i].path != t@[j].path);
    } else if j < i {
        assert(t@[j].path != t@[i].path);
    }
}

/// Following parent links from position `i` reaches the root: each step goes
/// to a strictly earlier position, and position zero is the root.
pub open spec fn climbs_to_root(ns: Seq<NodeRecord>, i: int) -> bool
    decreases i,
{
    if i <= 0 {
        i == 0
    } else if !(0 <= ns[i].parent_index < i) {
        false
    } else {
        climbs_to_root(ns, ns[i].parent_index as int)
    }
}

/// In a well-formed tree no node is its own parent, and every node reaches
/// the root by following parent links upward: the parent graph is acyclic.
pub proof fn lemma_parents_acyclic(t: Tree)
    requires
        t.wf(),
    ensures
        forall|i: int| 0 <= i < t@.len() ==> #[trigger] climbs_to_root(t@, i),
        forall|i: int| 1 <= i < t@.len() ==> (#[trigger] t@[i]).parent_index != t@[i].index,
{
    assert forall|i: int| 0 <= i < t@.len() implies #[trigger] climbs_to_root(t@, i) by {
        lemma_climb(t@, i);
    }
}

proof fn lemma_climb(ns: Seq<NodeRecord>, i: int)
    requires
        tree_valid(ns),
        0 <= i < ns.len(),
    ensures
        climbs_to_root(ns, i),
    decreases i,
{
    if i > 0 {
        lemma_climb(ns, ns[i].parent_index as int);
    }
}

/// An all-nodes traversal of `t` visits exactly this sequence of nodes.
pub open spec fn full_traversal(t: Tree, visited: Seq<NodeRecord>) -> bool {
    visited == t@
}

/// The all-nodes traversal is stable and exhaustive: any two traversals of
/// the same tree visit the same nodes in the same order, and no node is
/// visited twice within one traversal.
pub proof fn lemma_traversal_stable(t: Tree, v1: Seq<NodeRecord>, v2: Seq<NodeRecord>)
    requires
        t.wf(),
        full_traversal(t, v1),
        full_traversal(t, v2),
    ensures
        v1 == v2,
        forall|i: int, j: int| 0 <= i < j < v1.len() ==> v1[i] != v1[j],
{
    assert forall|i: int, j: int| 0 <= i < j < v1.len() implies v1[i] != v1[j] by {
        assert(t@[i].index == i);
        assert(t@[j].index == j);
    }
}

} // verus!
