//! The handle discipline: every value exported across the boundary (a node, a
//! variable entry, a string, an encoded buffer) is an owning handle obtained
//! from exactly one allocation call and consumed by exactly one matching
//! release call.
//!
//! Ownership makes a double release or a use after release impossible: a
//! release consumes the handle. The `HandleLedger` makes the pairing
//! checkable from outside: each allocation and each release is counted, and a
//! caller that released every handle it obtained ends with a balanced ledger.

use vstd::prelude::*;

use crate::model::NodeRecord;
use crate::model::VarRecord;
use crate::model::Node;
use crate::model::VariableEntry;

verus! {

/// Counts the handle allocations and releases performed across the boundary.
pub struct HandleLedger {
    allocated: u64,
    released: u64,
}

impl HandleLedger {
    /// No more releases than allocations have been recorded.
    pub closed spec fn wf(self) -> bool {
        self.released <= self.allocated
    }

    pub closed spec fn spec_allocated(self) -> u64 {
        self.allocated
    }

    pub closed spec fn spec_released(self) -> u64 {
        self.released
    }

    /// How many handles are currently live: allocated and not yet released.
    pub open spec fn live(self) -> int {
        self.spec_allocated() - self.spec_released()
    }

    /// Every allocation has been matched by a release.
    pub open spec fn balanced(self) -> bool {
        self.spec_allocated() == self.spec_released()
    }

    /// A fresh ledger: nothing allocated, nothing released.
    pub fn new() -> (r: HandleLedger)
        ensures
            r.wf(),
            r.balanced(),
            r.spec_allocated() == 0,
    {
        HandleLedger { allocated: 0, released: 0 }
    }

    /// Returns the number of handles allocated so far.
    pub fn allocated_count(&self) -> (r: u64)
        ensures
            r == self.spec_allocated(),
    {
        self.allocated
    }

    /// Returns the number of handles released so far.
    pub fn released_count(&self) -> (r: u64)
        ensures
            r == self.spec_released(),
    {
        self.released
    }

    /// Returns true exactly when allocations and releases pair off.
    pub fn is_balanced(&self) -> (r: bool)
        ensures
            r == self.balanced(),
    {
        self.allocated == self.released
    }

    /// Records one handle allocation.
    pub(crate) fn record_alloc(&mut self)
        requires
            old(self).wf(),
            old(self).spec_allocated() < u64::MAX,
        ensures
            final(self).wf(),
            final(self).spec_allocated() == old(self).spec_allocated() + 1,
            final(self).spec_released() == old(self).spec_released(),
    {
        self.allocated = self.allocated + 1;
    }

    /// Records one handle release.
    pub(crate) fn record_release(&mut self)
        requires
            old(self).wf(),
            old(self).live() > 0,
        ensures
            final(self).wf(),
            final(self).spec_allocated() == old(self).spec_allocated(),
            final(self).spec_released() == old(self).spec_released() + 1,
    {
        self.released = self.released + 1;
    }
}

/// A ledger is balanced exactly when no handle is live: releasing every
/// handle obtained, once each, brings the live count to zero.
pub proof fn lemma_ledger_balance(l: HandleLedger)
    requires
        l.wf(),
    ensures
        l.balanced() <==> l.live() == 0,
{
}

/// One recorded boundary event: a handle allocation or a handle release.
pub ghost enum LedgerEvent {
    Alloc,
    Release,
}

/// How many of the events are allocations.
pub open spec fn alloc_count(evs: Seq<LedgerEvent>) -> nat
    decreases evs.len(),
{
    if evs.len() == 0 {
        0
    } else {
        alloc_count(evs.drop_last()) + if evs.last() is Alloc {
            1nat
        } else {
            0nat
        }
    }
}

/// How many of the events are releases.
pub open spec fn release_count(evs: Seq<LedgerEvent>) -> nat
    decreases evs.len(),
{
    if evs.len() == 0 {
        0
    } else {
        release_count(evs.drop_last()) + if evs.last() is Release {
            1nat
        } else {
            0nat
        }
    }
}

/// The ledger after replaying a run of boundary events, counting exactly as
/// the allocation and release operations do; `None` where a step's
/// precondition fails (a counter at its limit, or a release with nothing
/// live).
pub closed spec fn replay(l: HandleLedger, evs: Seq<LedgerEvent>) -> Option<HandleLedger>
    decreases evs.len(),
{
    if evs.len() == 0 {
        Some(l)
    } else {
        match replay(l, evs.drop_last()) {
            Some(m) => match evs.last() {
                LedgerEvent::Alloc => if m.allocated < u64::MAX {
                    Some(HandleLedger { allocated: (m.allocated + 1) as u64, released: m.released })
                } else {
                    None
                },
                LedgerEvent::Release => if m.released < m.allocated {
                    Some(HandleLedger { allocated: m.allocated, released: (m.released + 1) as u64 })
                } else {
                    None
                },
            },
            None => None,
        }
    }
}

/// Every handle is released exactly once, in general: replaying any
/// admissible run over a well-formed ledger leaves one live handle per
/// unmatched allocation. A run over a fresh ledger with one release per
/// allocation therefore ends balanced, and no admissible run releases a
/// handle that is not live — the release precondition stops at the counter
/// level what ownership already stops at the type level.
pub proof fn lemma_exactly_once_release(l: HandleLedger, evs: Seq<LedgerEvent>)
    requires
        l.wf(),
        replay(l, evs) is Some,
    ensures
        replay(l, evs) matches Some(m) ==> m.wf() && m.live() == l.live() + alloc_count(evs)
            - release_count(evs),
    decreases evs.len(),
{
    if evs.len() > 0 {
        lemma_exactly_once_release(l, evs.drop_last());
    }
}

/// The corollary the harness checks: a run over a fresh ledger ends balanced
/// exactly when it released as many handles as it allocated.
pub proof fn lemma_run_balances(l: HandleLedger, evs: Seq<LedgerEvent>)
    requires
        l.wf(),
        l.balanced(),
        replay(l, evs) is Some,
    ensures
        replay(l, evs) matches Some(m) ==> (m.balanced() <==> alloc_count(evs) == release_count(
            evs,
        )),
{
    lemma_exactly_once_release(l, evs);
}

/// An owning handle to one node, duplicated out of its tree so that holding
/// or releasing it never touches tree-owned storage.
pub struct NodeHandle {
    pub(crate) node: Node,
}

impl View for NodeHandle {
    type V = NodeRecord;

    closed spec fn view(&self) -> NodeRecord {
        self.node@
    }
}

impl NodeHandle {
    /// Wraps a duplicated node into a fresh handle.
    pub(crate) fn wrap(node: Node) -> (r: NodeHandle)
        ensures
            r@ == node@,
    {
        NodeHandle { node }
    }

    /// Whether the node this handle refers to is the root of its tree.
    pub open spec fn spec_is_root(self) -> bool {
        self@.parent_index == crate::model::NO_PARENT
    }

    /// Returns the node's dense index within its tree.
    pub fn get_index(&self) -> (r: u32)
        ensures
            r == self@.index,
    {
        self.node.get_index()
    }

    /// Returns the parent's index, or `NO_PARENT` at the root.
    pub fn get_parent_index(&self) -> (r: u32)
        ensures
            r == self@.parent_index,
    {
        self.node.get_parent_index()
    }

    /// Returns true exactly when the node has no parent (the root).
    pub fn is_root(&self) -> (r: bool)
        ensures
            r == self.spec_is_root(),
    {
        self.node.is_root()
    }

    /// Allocates a string handle holding the node's dotted path.
    pub fn path(&self, ledger: &mut HandleLedger) -> (r: StrHandle)
        requires
            old(ledger).wf(),
            old(ledger).spec_allocated() < u64::MAX,
        ensures
            r@ == self@.path,
            final(ledger).wf(),
            final(ledger).spec_allocated() == old(ledger).spec_allocated() + 1,
            final(ledger).spec_released() == old(ledger).spec_released(),
    {
        ledger.record_alloc();
        StrHandle { bytes: crate::util::copy_bytes(&self.node.path) }
    }

    /// Visits the variables declared or overridden at this node, in source
    /// declaration order, allocating one entry handle per variable. In a
    /// well-formed node every visited entry carries a value or a
    /// declaration, never neither.
    pub fn for_each_variable(&self, ledger: &mut HandleLedger) -> (r: Vec<VarHandle>)
        requires
            old(ledger).wf(),
            old(ledger).spec_allocated() + self@.vars.len() <= u64::MAX,
        ensures
            r@.map_values(|h: VarHandle| h@) == self@.vars,
            self@.wf() ==> forall|i: int| 0 <= i < r@.len() ==> (#[trigger] r@[i])@.wf(),
            final(ledger).wf(),
            final(ledger).spec_allocated() == old(ledger).spec_allocated() + self@.vars.len(),
            final(ledger).spec_released() == old(ledger).spec_released(),
    {
        let mut out: Vec<VarHandle> = Vec::new();
        let n = self.node.vars.len();
        let mut i: usize = 0;
        while i < n
            invariant
                n == self@.vars.len(),
                n == self.node.vars@.len(),
                i <= n,
                forall|k: int| 0 <= k < n ==> self@.vars[k] == (#[trigger] self.node.vars@[k])@,
                out@.len() == i,
                forall|k: int| 0 <= k < i ==> (#[trigger] out@[k])@ == self@.vars[k],
                ledger.wf(),
                ledger.spec_allocated() == old(ledger).spec_allocated() + i,
                ledger.spec_released() == old(ledger).spec_released(),
                old(ledger).spec_allocated() + n <= u64::MAX,
            decreases n - i,
        {
            ledger.record_alloc();
            out.push(VarHandle { entry: crate::util::copy_var(&self.node.vars[i]) });
            i = i + 1;
        }
        proof {
            assert(out@.map_values(|h: VarHandle| h@) =~= self@.vars);
        }
        out
    }

    /// Allocates a buffer handle holding this node's variable table in the
    /// bulk encoding.
    pub fn encode_variables(&self, ledger: &mut HandleLedger) -> (r: BufHandle)
        requires
            old(ledger).wf(),
            old(ledger).spec_allocated() < u64::MAX,
        ensures
            r@ == crate::codec::enc_var_table(self@.vars),
            final(ledger).wf(),
            final(ledger).spec_allocated() == old(ledger).spec_allocated() + 1,
            final(ledger).spec_released() == old(ledger).spec_released(),
    {
        ledger.record_alloc();
        BufHandle { bytes: crate::codec::encode_variable_table(&self.node.vars) }
    }

    /// The bulk encoding agrees with the push-style variable traversal:
    /// decoding the buffer `encode_variables` produces yields exactly the
    /// records `for_each_variable` visits, in the same order.
    pub proof fn lemma_bulk_matches_traversal(&self)
        requires
            crate::codec::var_table_bounded(self@.vars),
        ensures
            crate::codec::var_table_of(crate::codec::enc_var_table(self@.vars)) == Some(
                self@.vars,
            ),
    {
        crate::codec::lemma_var_table_round_trip(self@.vars);
    }

    /// The procedure buffer stands on the same footing: decoding the buffer
    /// `encode_procedures` produces yields exactly the node's procedure
    /// records, in the same order.
    pub proof fn lemma_procedure_buffer_round_trip(&self)
        requires
            crate::codec::proc_table_bounded(self@.procs),
        ensures
            crate::codec::proc_table_of(crate::codec::enc_proc_table(self@.procs)) == Some(
                self@.procs,
            ),
    {
        crate::codec::lemma_proc_table_round_trip(self@.procs);
    }

    /// Allocates a buffer handle holding this node's procedure table in the
    /// bulk encoding.
    pub fn encode_procedures(&self, ledger: &mut HandleLedger) -> (r: BufHandle)
        requires
            old(ledger).wf(),
            old(ledger).spec_allocated() < u64::MAX,
        ensures
            r@ == crate::codec::enc_proc_table(self@.procs),
            final(ledger).wf(),
            final(ledger).spec_allocated() == old(ledger).spec_allocated() + 1,
            final(ledger).spec_released() == old(ledger).spec_released(),
    {
        ledger.record_alloc();
        BufHandle { bytes: crate::codec::encode_procedure_table(&self.node.procs) }
    }
}

/// An owning handle to one variable entry, duplicated out of its node.
pub struct VarHandle {
    pub(crate) entry: VariableEntry,
}

impl View for VarHandle {
    type V = VarRecord;

    closed spec fn view(&self) -> VarRecord {
        self.entry@
    }
}

impl VarHandle {
    /// Reads the entry this handle carries.
    pub fn entry(&self) -> (r: &VariableEntry)
        ensures
            r@ == self@,
    {
        &self.entry
    }
}

/// An owning handle to a boundary string: a raw byte range with an explicit
/// length, never null-terminated.
pub struct StrHandle {
    pub(crate) bytes: Vec<u8>,
}

impl View for StrHandle {
    type V = Seq<u8>;

    closed spec fn view(&self) -> Seq<u8> {
        self.bytes@
    }
}

impl StrHandle {
    /// Reads the bytes this handle carries.
    pub fn bytes(&self) -> (r: &Vec<u8>)
        ensures
            r@ == self@,
    {
        &self.bytes
    }
}

/// An owning handle to one encoded buffer produced by the bulk encoder.
pub struct BufHandle {
    pub(crate) bytes: Vec<u8>,
}

impl View for BufHandle {
    type V = Seq<u8>;

    closed spec fn view(&self) -> Seq<u8> {
        self.bytes@
    }
}

impl BufHandle {
    /// Reads the bytes this handle carries.
    pub fn bytes(&self) -> (r: &Vec<u8>)
        ensures
            r@ == self@,
    {
        &self.bytes
    }
}

/// Releases a node handle, consuming it and recording the release.
pub fn node_free(ledger: &mut HandleLedger, handle: NodeHandle)
    requires
        old(ledger).wf(),
        old(ledger).live() > 0,
    ensures
        final(ledger).wf(),
        final(ledger).spec_allocated() == old(ledger).spec_allocated(),
        final(ledger).spec_released() == old(ledger).spec_released() + 1,
{
    let _ = handle;
    ledger.record_release();
}

/// Releases a variable-entry handle, consuming it and recording the release.
pub fn var_free(ledger: &mut HandleLedger, handle: VarHandle)
    requires
        old(ledger).wf(),
        old(ledger).live() > 0,
    ensures
        final(ledger).wf(),
        final(ledger).spec_allocated() == old(ledger).spec_allocated(),
        final(ledger).spec_released() == old(ledger).spec_released() + 1,
{
    let _ = handle;
    ledger.record_release();
}

/// Releases a string handle, consuming it and recording the release.
pub fn string_free(ledger: &mut HandleLedger, handle: StrHandle)
    requires
        old(ledger).wf(),
        old(ledger).live() > 0,
    ensures
        final(ledger).wf(),
        final(ledger).spec_allocated() == old(ledger).spec_allocated(),
        final(ledger).spec_released() == old(ledger).spec_released() + 1,
{
    let _ = handle;
    ledger.record_release();
}

/// Releases an encoded-buffer handle, consuming it and recording the release.
pub fn buffer_free(ledger: &mut HandleLedger, handle: BufHandle)
    requires
        old(ledger).wf(),
        old(ledger).live() > 0,
    ensures
        final(ledger).wf(),
        final(ledger).spec_allocated() == old(ledger).spec_allocated(),
        final(ledger).spec_released() == old(ledger).spec_released() + 1,
{
    let _ = handle;
    ledger.record_release();
}

} // verus!
