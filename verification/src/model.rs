//! The tree model: nodes, their variable and procedure tables, and the
//! well-formedness each one keeps.
//!
//! Boundary strings (paths, names, values, declarations) are carried as plain
//! byte buffers: the boundary hands raw, explicitly-sized byte ranges across,
//! never assuming a terminator, so a buffer may hold embedded zero bytes.

use vstd::prelude::*;

verus! {

/// Sentinel parent index meaning "no parent"; only the root node carries it.
pub const NO_PARENT: u32 = 0xFFFF_FFFF;

/// One variable at one node: the name, the value assigned at this node (absent
/// where the node only declares), and the declaration (type annotation and
/// modifiers, present only at the node that introduces the variable).
#[derive(Clone, Debug)]
pub struct VariableEntry {
    pub name: Vec<u8>,
    pub value: Option<Vec<u8>>,
    pub declaration: Option<Vec<u8>>,
}

/// The mathematical content of a `VariableEntry`.
pub ghost struct VarRecord {
    pub name: Seq<u8>,
    pub value: Option<Seq<u8>>,
    pub declaration: Option<Seq<u8>>,
}

impl View for VariableEntry {
    type V = VarRecord;

    open spec fn view(&self) -> VarRecord {
        VarRecord {
            name: self.name@,
            value: match self.value {
                Some(v) => Some(v@),
                None => None,
            },
            declaration: match self.declaration {
                Some(d) => Some(d@),
                None => None,
            },
        }
    }
}

impl VarRecord {
    /// An entry carries at least one of a value and a declaration.
    pub open spec fn wf(self) -> bool {
        self.value is Some || self.declaration is Some
    }
}

/// One procedure at one node: the name, the overrides contributed along the
/// inheritance chain in declaration order, and the declaration (signature and
/// modifiers, present only at the introducing node).
#[derive(Clone, Debug)]
pub struct ProcedureEntry {
    pub name: Vec<u8>,
    pub values: Vec<Vec<u8>>,
    pub declaration: Option<Vec<u8>>,
}

/// The mathematical content of a `ProcedureEntry`.
pub ghost struct ProcRecord {
    pub name: Seq<u8>,
    pub values: Seq<Seq<u8>>,
    pub declaration: Option<Seq<u8>>,
}

impl View for ProcedureEntry {
    type V = ProcRecord;

    open spec fn view(&self) -> ProcRecord {
        ProcRecord {
            name: self.name@,
            values: self.values@.map_values(|v: Vec<u8>| v@),
            declaration: match self.declaration {
                Some(d) => Some(d@),
                None => None,
            },
        }
    }
}

impl ProcRecord {
    /// An entry carries at least one override or a declaration.
    pub open spec fn wf(self) -> bool {
        self.values.len() > 0 || self.declaration is Some
    }
}

/// One type in the hierarchy: its dotted path, its dense index within the
/// tree, its parent's index (`NO_PARENT` only at the root), and its variable
/// and procedure tables in source declaration order.
#[derive(Clone, Debug)]
pub struct Node {
    pub path: Vec<u8>,
    pub index: u32,
    pub parent_index: u32,
    pub vars: Vec<VariableEntry>,
    pub procs: Vec<ProcedureEntry>,
}

/// The mathematical content of a `Node`.
pub ghost struct NodeRecord {
    pub path: Seq<u8>,
    pub index: u32,
    pub parent_index: u32,
    pub vars: Seq<VarRecord>,
    pub procs: Seq<ProcRecord>,
}

impl View for Node {
    type V = NodeRecord;

    open spec fn view(&self) -> NodeRecord {
        NodeRecord {
            path: self.path@,
            index: self.index,
            parent_index: self.parent_index,
            vars: self.vars@.map_values(|v: VariableEntry| v@),
            procs: self.procs@.map_values(|p: ProcedureEntry| p@),
        }
    }
}

impl NodeRecord {
    /// Every variable and procedure entry of the node is well formed, and the
    /// tables are maps: no name occurs twice within one table.
    pub open spec fn wf(self) -> bool {
        &&& forall|i: int| 0 <= i < self.vars.len() ==> (#[trigger] self.vars[i]).wf()
        &&& forall|i: int| 0 <= i < self.procs.len() ==> (#[trigger] self.procs[i]).wf()
        &&& forall|i: int, j: int|
            0 <= i < j < self.vars.len() ==> (#[trigger] self.vars[i]).name != (#[trigger] self.vars[j]).name
        &&& forall|i: int, j: int|
            0 <= i < j < self.procs.len() ==> (#[trigger] self.procs[i]).name != (#[trigger] self.procs[j]).name
    }
}

impl Node {
    /// Whether this node is the root of its tree: exactly the nodes with no
    /// parent.
    pub open spec fn spec_is_root(self) -> bool {
        self.parent_index == NO_PARENT
    }

    /// Returns true exactly when the node has no parent (the root).
    pub fn is_root(&self) -> (r: bool)
        ensures
            r == self.spec_is_root(),
    {
        self.parent_index == NO_PARENT
    }

    /// Returns the node's dense index within its tree.
    pub fn get_index(&self) -> (r: u32)
        ensures
            r == self.index,
    {
        self.index
    }

    /// Returns the index of the node's parent, or `NO_PARENT` at the root.
    pub fn get_parent_index(&self) -> (r: u32)
        ensures
            r == self.parent_index,
    {
        self.parent_index
    }
}

} // verus!
