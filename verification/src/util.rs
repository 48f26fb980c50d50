//! Verified deep copies: the boundary duplicates every exported value into a
//! freestanding allocation, so releasing a handle never touches tree-owned
//! storage.

use vstd::prelude::*;

use crate::model::Node;
use crate::model::ProcedureEntry;
use crate::model::VariableEntry;

verus! {

/// Copies a byte buffer.
pub(crate) fn copy_bytes(v: &Vec<u8>) -> (r: Vec<u8>)
    ensures
        r@ == v@,
{
    let mut out: Vec<u8> = Vec::new();
    let mut i: usize = 0;
    while i < v.len()
        invariant
            i <= v@.len(),
            out@ == v@.take(i as int),
        decreases v@.len() - i,
    {
        out.push(v[i]);
        i = i + 1;
        proof {
            assert(out@ =~= v@.take(i as int));
        }
    }
    proof {
        assert(out@ =~= v@);
    }
    out
}

/// Copies an optional byte buffer.
pub(crate) fn copy_opt_bytes(v: &Option<Vec<u8>>) -> (r: Option<Vec<u8>>)
    ensures
        match v {
            Some(b) => r matches Some(rb) && rb@ == b@,
            None => r is None,
        },
{
    match v {
        Some(b) => Some(copy_bytes(b)),
        None => None,
    }
}

/// Copies a list of byte buffers.
pub(crate) fn copy_bytes_list(v: &Vec<Vec<u8>>) -> (r: Vec<Vec<u8>>)
    ensures
        r@.map_values(|b: Vec<u8>| b@) == v@.map_values(|b: Vec<u8>| b@),
{
    let mut out: Vec<Vec<u8>> = Vec::new();
    let mut i: usize = 0;
    while i < v.len()
        invariant
            i <= v@.len(),
            out@.len() == i,
            forall|k: int| 0 <= k < i ==> (#[trigger] out@[k])@ == v@[k]@,
        decreases v@.len() - i,
    {
        out.push(copy_bytes(&v[i]));
        i = i + 1;
    }
    proof {
        assert(out@.map_values(|b: Vec<u8>| b@) =~= v@.map_values(|b: Vec<u8>| b@));
    }
    out
}

/// Copies one variable entry.
pub(crate) fn copy_var(v: &VariableEntry) -> (r: VariableEntry)
    ensures
        r@ == v@,
{
    VariableEntry {
        name: copy_bytes(&v.name),
        value: copy_opt_bytes(&v.value),
        declaration: copy_opt_bytes(&v.declaration),
    }
}

/// Copies one procedure entry.
pub(crate) fn copy_proc(p: &ProcedureEntry) -> (r: ProcedureEntry)
    ensures
        r@ == p@,
{
    ProcedureEntry {
        name: copy_bytes(&p.name),
        values: copy_bytes_list(&p.values),
        declaration: copy_opt_bytes(&p.declaration),
    }
}

/// Copies a variable table.
pub(crate) fn copy_vars(v: &Vec<VariableEntry>) -> (r: Vec<VariableEntry>)
    ensures
        r@.map_values(|e: VariableEntry| e@) == v@.map_values(|e: VariableEntry| e@),
{
    let mut out: Vec<VariableEntry> = Vec::new();
    let mut i: usize = 0;
    while i < v.len()
        invariant
            i <= v@.len(),
            out@.len() == i,
            forall|k: int| 0 <= k < i ==> (#[trigger] out@[k])@ == v@[k]@,
        decreases v@.len() - i,
    {
        out.push(copy_var(&v[i]));
        i = i + 1;
    }
    proof {
        assert(out@.map_values(|e: VariableEntry| e@) =~= v@.map_values(|e: VariableEntry| e@));
    }
    out
}

/// Copies a procedure table.
pub(crate) fn copy_procs(v: &Vec<ProcedureEntry>) -> (r: Vec<ProcedureEntry>)
    ensures
        r@.map_values(|e: ProcedureEntry| e@) == v@.map_values(|e: ProcedureEntry| e@),
{
    let mut out: Vec<ProcedureEntry> = Vec::new();
    let mut i: usize = 0;
    while i < v.len()
        invariant
            i <= v@.len(),
            out@.len() == i,
            forall|k: int| 0 <= k < i ==> (#[trigger] out@[k])@ == v@[k]@,
        decreases v@.len() - i,
    {
        out.push(copy_proc(&v[i]));
        i = i + 1;
    }
    proof {
        assert(out@.map_values(|e: ProcedureEntry| e@) =~= v@.map_values(|e: ProcedureEntry| e@));
    }
    out
}

/// Copies one node.
pub(crate) fn copy_node(n: &Node) -> (r: Node)
    ensures
        r@ == n@,
{
    let r = Node {
        path: copy_bytes(&n.path),
        index: n.index,
        parent_index: n.parent_index,
        vars: copy_vars(&n.vars),
        procs: copy_procs(&n.procs),
    };
    r
}

/// Compares two byte buffers for equality of contents.
pub(crate) fn bytes_eq(a: &Vec<u8>, b: &Vec<u8>) -> (r: bool)
    ensures
        r == (a@ == b@),
{
    if a.len() != b.len() {
        proof {
            assert(a@.len() != b@.len());
        }
        return false;
    }
    let mut i: usize = 0;
    while i < a.len()
        invariant
            i <= a@.len(),
            a@.len() == b@.len(),
            forall|k: int| 0 <= k < i ==> a@[k] == b@[k],
        decreases a@.len() - i,
    {
        if a[i] != b[i] {
            return false;
        }
        i = i + 1;
    }
    proof {
        assert(a@ =~= b@);
    }
    true
}

} // verus!
