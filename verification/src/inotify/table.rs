//! The attribution table: which watches a record on a descriptor belongs to.
//!
//! One kernel watch descriptor can back several watches, its anchors: arming an
//! inode that is already watched yields no descriptor of its own, and the
//! second anchor is registered onto the one that stands.
//!
//! The kernel watch is removed when the last live anchor leaves, and the entry
//! then survives, draining, until the final marker of its descriptor has been
//! read. A draining entry exists only while that marker can still come: a loss
//! that may have swallowed it, or proof that the kernel does not owe it, erases
//! the entry at once. A descriptor is never granted twice on one instance, so a
//! marker that straggles in afterwards falls on an unmapped descriptor, where
//! it changes nothing.

use std::collections::BTreeMap;

use vstd::prelude::*;

use crate::watch::WatchId;

verus! {

broadcast use vstd::std_specs::btree::group_btree_axioms;

/// What the caller must do with the kernel watch after an anchor left.
#[derive(Clone, Copy, Debug, PartialEq, Eq, Structural)]
pub enum DrainDecision {
    /// The last live anchor left: remove this descriptor's kernel watch.
    RemoveWd(i32),
    /// The kernel watch stays.
    KeepWd,
}

/// One descriptor's bookkeeping: the anchors still attributing, and whether the
/// removal of the kernel watch was already decided.
#[derive(Debug)]
struct WdEntry {
    live: Vec<WatchId>,
    draining: bool,
}

/// What a descriptor's entry stands for.
pub struct EntryModel {
    pub live: Seq<WatchId>,
    pub draining: bool,
}

/// What a table stands for: the entries by descriptor, and the descriptor of
/// each anchor.
#[verifier::ext_equal]
pub struct TableModel {
    pub entries: Map<i32, EntryModel>,
    pub bound: Map<WatchId, i32>,
}

impl TableModel {
    /// The table's invariant: an entry is draining exactly while it has no live
    /// anchor, no anchor is live twice, and the anchors' descriptors are the
    /// exact reverse of the entries.
    pub open spec fn wf(self) -> bool {
        &&& forall|wd: i32| #[trigger]
            self.entries.contains_key(wd) ==> (self.entries[wd].draining
                <==> self.entries[wd].live.len() == 0)
        &&& forall|wd: i32| #[trigger]
            self.entries.contains_key(wd) ==> self.entries[wd].live.no_duplicates()
        &&& forall|wd: i32, a: WatchId| #[trigger]
            self.attributes(wd, a) <==> self.bound.contains_key(a) && self.bound[a] == wd
    }

    /// Whether records on `wd` fan out to `a`.
    pub open spec fn attributes(self, wd: i32, a: WatchId) -> bool {
        self.entries.contains_key(wd) && self.entries[wd].live.contains(a)
    }

    /// Whether `wd` is mapped with live anchors.
    pub open spec fn is_live(self, wd: i32) -> bool {
        self.entries.contains_key(wd) && !self.entries[wd].draining
    }

    /// The anchors of a record on `wd`.
    pub open spec fn anchors(self, wd: i32) -> Seq<WatchId> {
        if self.entries.contains_key(wd) {
            self.entries[wd].live
        } else {
            Seq::empty()
        }
    }

    /// The table with nothing in it.
    pub open spec fn empty() -> TableModel {
        TableModel { entries: Map::empty(), bound: Map::empty() }
    }

    /// Whether `wd` can be adopted for `a`: nothing is mapped on `wd`, and `a`
    /// is bound nowhere.
    pub open spec fn can_register(self, wd: i32, a: WatchId) -> bool {
        !self.entries.contains_key(wd) && !self.bound.contains_key(a)
    }

    /// The table once the fresh kernel watch `wd` backs `a`.
    pub open spec fn registered(self, wd: i32, a: WatchId) -> TableModel {
        TableModel {
            entries: self.entries.insert(wd, EntryModel { live: seq![a], draining: false }),
            bound: self.bound.insert(a, wd),
        }
    }

    /// Whether `a` can join `wd`: the descriptor is live, and `a` is not bound
    /// elsewhere.
    pub open spec fn can_alias(self, wd: i32, a: WatchId) -> bool {
        self.is_live(wd) && (self.bound.contains_key(a) ==> self.bound[a] == wd)
    }

    /// The table once `a` has joined `wd`; an anchor that is there already
    /// keeps its single slot.
    pub open spec fn aliased(self, wd: i32, a: WatchId) -> TableModel {
        if self.attributes(wd, a) {
            self
        } else {
            TableModel {
                entries: self.entries.insert(
                    wd,
                    EntryModel { live: self.entries[wd].live.push(a), draining: false },
                ),
                bound: self.bound.insert(a, wd),
            }
        }
    }

    /// What to do with the kernel watch when `a` leaves.
    pub open spec fn drain_decision(self, a: WatchId) -> DrainDecision {
        if self.bound.contains_key(a) && self.entries[self.bound[a]].live.len() == 1 {
            DrainDecision::RemoveWd(self.bound[a])
        } else {
            DrainDecision::KeepWd
        }
    }

    /// The table once `a` has left.
    pub open spec fn drained(self, a: WatchId) -> TableModel {
        if self.bound.contains_key(a) {
            let wd = self.bound[a];
            let live = self.entries[wd].live;
            let rest = live.remove(live.index_of(a));
            TableModel {
                entries: self.entries.insert(
                    wd,
                    EntryModel { live: rest, draining: rest.len() == 0 },
                ),
                bound: self.bound.remove(a),
            }
        } else {
            self
        }
    }

    /// The table once the final marker of `wd` has been read.
    pub open spec fn ignored(self, wd: i32) -> TableModel {
        TableModel {
            entries: self.entries.remove(wd),
            bound: Map::new(
                |a: WatchId| self.bound.contains_key(a) && self.bound[a] != wd,
                |a: WatchId| self.bound[a],
            ),
        }
    }

    /// The table after a loss: what was draining is gone, all else stands.
    pub open spec fn after_loss(self) -> TableModel {
        TableModel {
            entries: Map::new(|wd: i32| self.is_live(wd), |wd: i32| self.entries[wd]),
            bound: self.bound,
        }
    }

    /// Whether `wd` is draining.
    pub open spec fn is_draining(self, wd: i32) -> bool {
        self.entries.contains_key(wd) && self.entries[wd].draining
    }

    /// The table without the draining entry of `wd`.
    pub open spec fn without(self, wd: i32) -> TableModel {
        TableModel { entries: self.entries.remove(wd), bound: self.bound }
    }
}

/// The table of descriptors and anchors.
#[derive(Debug)]
pub struct WdTable {
    entries: BTreeMap<i32, WdEntry>,
    by_anchor: BTreeMap<u64, i32>,
}

impl View for WdTable {
    type V = TableModel;

    closed spec fn view(&self) -> TableModel {
        TableModel {
            entries: self.entries@.map_values(
                |e: WdEntry| EntryModel { live: e.live@, draining: e.draining },
            ),
            bound: Map::new(
                |a: WatchId| self.by_anchor@.contains_key(a.raw),
                |a: WatchId| self.by_anchor@[a.raw],
            ),
        }
    }
}

impl WdTable {
    /// The table's invariant.
    pub open spec fn wf(&self) -> bool {
        self@.wf()
    }

    /// An empty table.
    pub fn new() -> (r: WdTable)
        ensures
            r.wf(),
            r@ == TableModel::empty(),
    {
        let r = WdTable { entries: BTreeMap::new(), by_anchor: BTreeMap::new() };
        assert(r@ =~= TableModel::empty());
        r
    }

    /// The descriptor that backs `anchor`, if any.
    pub fn wd_of(&self, anchor: WatchId) -> (r: Option<i32>)
        ensures
            r == (if self@.bound.contains_key(anchor) {
                Some(self@.bound[anchor])
            } else {
                None
            }),
    {
        match self.by_anchor.get(&anchor.raw) {
            Some(wd) => Some(*wd),
            None => None,
        }
    }

    /// Records the fresh kernel watch `wd` as backing `anchor`.
    pub fn register(&mut self, wd: i32, anchor: WatchId)
        requires
            old(self).wf(),
            old(self)@.can_register(wd, anchor),
        ensures
            final(self).wf(),
            final(self)@ == old(self)@.registered(wd, anchor),
    {
        let mut live: Vec<WatchId> = Vec::new();
        live.push(anchor);
        self.entries.insert(wd, WdEntry { live, draining: false });
        self.by_anchor.insert(anchor.raw, wd);
        proof {
            assert(live@ =~= seq![anchor]);
            assert(self@ =~= old(self)@.registered(wd, anchor));
            law_every_operation_keeps_the_invariant(old(self)@, TableOp::Register(wd, anchor));
        }
    }

    /// Records `anchor` as a further anchor of the live descriptor `wd`. An
    /// anchor that is already there keeps a single slot.
    pub fn alias(&mut self, wd: i32, anchor: WatchId)
        requires
            old(self).wf(),
            old(self)@.can_alias(wd, anchor),
        ensures
            final(self).wf(),
            final(self)@ == old(self)@.aliased(wd, anchor),
    {
        let mut entry = match self.entries.remove(&wd) {
            Some(entry) => entry,
            None => {
                assert(false);
                WdEntry { live: Vec::new(), draining: false }
            },
        };
        let present = position_of(&entry.live, anchor).is_some();
        if !present {
            entry.live.push(anchor);
        }
        self.entries.insert(wd, entry);
        self.by_anchor.insert(anchor.raw, wd);
        proof {
            assert(old(self)@.attributes(wd, anchor) <==> old(self)@.bound.contains_key(anchor)
                && old(self)@.bound[anchor] == wd);
            assert(self@ =~= old(self)@.aliased(wd, anchor));
            law_every_operation_keeps_the_invariant(old(self)@, TableOp::Alias(wd, anchor));
        }
    }

    /// The anchors that a record on `wd` other than its final marker fans out
    /// to: none where `wd` is unmapped or draining.
    pub fn attribute(&self, wd: i32) -> (r: &[WatchId])
        ensures
            r@ == self@.anchors(wd),
    {
        match self.entries.get(&wd) {
            Some(entry) => entry.live.as_slice(),
            None => &[],
        }
    }

    /// Whether `wd` is mapped, live or draining.
    pub fn contains(&self, wd: i32) -> (r: bool)
        ensures
            r == self@.entries.contains_key(wd),
    {
        self.entries.contains_key(&wd)
    }

    /// Whether `wd` is mapped with live anchors.
    pub fn is_live(&self, wd: i32) -> (r: bool)
        ensures
            r == self@.is_live(wd),
    {
        match self.entries.get(&wd) {
            Some(entry) => !entry.draining,
            None => false,
        }
    }

    /// Takes `anchor` out of attribution, and says whether its kernel watch
    /// must now be removed. The entry of a watch to be removed stays, draining.
    pub fn begin_drain(&mut self, anchor: WatchId) -> (r: DrainDecision)
        requires
            old(self).wf(),
        ensures
            final(self).wf(),
            final(self)@ == old(self)@.drained(anchor),
            r == old(self)@.drain_decision(anchor),
    {
        let wd: i32 = match self.by_anchor.remove(&anchor.raw) {
            Some(wd) => wd,
            None => {
                assert(self@ =~= old(self)@);
                return DrainDecision::KeepWd;
            },
        };
        assert(old(self)@.bound.contains_key(anchor));
        assert(old(self)@.attributes(wd, anchor));
        let mut entry = match self.entries.remove(&wd) {
            Some(entry) => entry,
            None => {
                assert(false);
                return DrainDecision::KeepWd;
            },
        };
        let ghost live = entry.live@;
        match position_of(&entry.live, anchor) {
            Some(at) => {
                entry.live.remove(at);
                assert(at == live.index_of(anchor));
            },
            None => {
                assert(false);
            },
        }
        let last = entry.live.is_empty();
        if last {
            entry.draining = true;
        }
        self.entries.insert(wd, entry);
        proof {
            assert(self@ =~= old(self)@.drained(anchor));
            law_every_operation_keeps_the_invariant(old(self)@, TableOp::Drain(anchor));
        }
        if last {
            DrainDecision::RemoveWd(wd)
        } else {
            DrainDecision::KeepWd
        }
    }

    /// Reads the final marker of `wd`: erases its entry, and returns the
    /// anchors that were still live.
    pub fn on_ignored(&mut self, wd: i32) -> (r: Vec<WatchId>)
        requires
            old(self).wf(),
        ensures
            final(self).wf(),
            final(self)@ == old(self)@.ignored(wd),
            r@ == old(self)@.anchors(wd),
    {
        proof {
            law_every_operation_keeps_the_invariant(old(self)@, TableOp::Ignored(wd));
        }
        let entry = match self.entries.remove(&wd) {
            Some(entry) => entry,
            None => {
                proof {
                    assert forall|a: WatchId| #[trigger]
                        self@.bound.contains_key(a) implies self@.bound[a] != wd by {
                        assert(old(self)@.attributes(self@.bound[a], a));
                    }
                    assert(self@ =~= old(self)@.ignored(wd));
                }
                return Vec::new();
            },
        };
        let ghost emptied = self.entries@;
        let ghost before = self.by_anchor@;
        let ghost live = entry.live@;
        let mut i: usize = 0;
        while i < entry.live.len()
            invariant
                i <= live.len(),
                live == entry.live@,
                self.entries@ == emptied,
                forall|k: u64| #[trigger]
                    self.by_anchor@.contains_key(k) <==> before.contains_key(k) && !live.take(
                        i as int,
                    ).contains(WatchId { raw: k }),
                forall|k: u64| #[trigger]
                    self.by_anchor@.contains_key(k) ==> self.by_anchor@[k] == before[k],
            decreases live.len() - i,
        {
            let a = entry.live[i];
            self.by_anchor.remove(&a.raw);
            assert(live.take(i + 1) =~= live.take(i as int).push(a));
            assert forall|k: u64| #[trigger]
                self.by_anchor@.contains_key(k) <==> before.contains_key(k) && !live.take(
                    i + 1,
                ).contains(WatchId { raw: k }) by {
                let b = WatchId { raw: k };
                let t = live.take(i as int);
                if t.contains(b) {
                    assert(t.push(a)[t.index_of(b)] == b);
                }
                assert(t.push(a)[i as int] == a);
            }
            i = i + 1;
        }
        proof {
            assert(live.take(i as int) =~= live);
            assert forall|a: WatchId| #[trigger]
                self@.bound.contains_key(a) <==> old(self)@.ignored(wd).bound.contains_key(a) by {
                assert(old(self)@.attributes(wd, a) <==> old(self)@.bound.contains_key(a)
                    && old(self)@.bound[a] == wd);
            }
            assert(self@ =~= old(self)@.ignored(wd));
        }
        entry.live
    }

    /// Erases every draining entry, whose awaited marker a loss may have
    /// swallowed. Live entries stand.
    pub fn on_loss(&mut self)
        requires
            old(self).wf(),
        ensures
            final(self).wf(),
            final(self)@ == old(self)@.after_loss(),
    {
        proof {
            law_every_operation_keeps_the_invariant(old(self)@, TableOp::Loss);
        }
        let ghost before = self.entries@;
        let mut dead: Vec<i32> = Vec::new();
        for pair in iter: self.entries.iter()
            invariant
                forall|j: int|
                    0 <= j < iter.index() && (#[trigger] iter.seq()[j]).1.draining
                        ==> dead@.contains(*iter.seq()[j].0),
                forall|j: int|
                    0 <= j < dead@.len() ==> self.entries@.contains_key(#[trigger] dead@[j])
                        && self.entries@[dead@[j]].draining,
        {
            let ghost found = dead@;
            if pair.1.draining {
                dead.push(*pair.0);
                assert(dead@.last() == *pair.0);
            }
            assert forall|k: i32| found.contains(k) implies #[trigger] dead@.contains(k) by {
                assert(dead@[found.index_of(k)] == k);
            }
        }
        let mut i: usize = 0;
        while i < dead.len()
            invariant
                i <= dead@.len(),
                forall|k: i32| #[trigger]
                    self.entries@.contains_key(k) <==> before.contains_key(k) && !dead@.take(
                        i as int,
                    ).contains(k),
                forall|k: i32| #[trigger]
                    self.entries@.contains_key(k) ==> self.entries@[k] == before[k],
                self.by_anchor == old(self).by_anchor,
            decreases dead@.len() - i,
        {
            let wd: i32 = dead[i];
            self.entries.remove(&wd);
            let ghost t = dead@.take(i as int);
            assert(dead@.take(i + 1) =~= t.push(wd));
            assert forall|k: i32| #[trigger]
                self.entries@.contains_key(k) <==> before.contains_key(k) && !dead@.take(
                    i + 1,
                ).contains(k) by {
                if t.contains(k) {
                    assert(t.push(wd)[t.index_of(k)] == k);
                }
                assert(t.push(wd)[i as int] == wd);
            }
            i = i + 1;
        }
        assert(dead@.take(i as int) =~= dead@);
        assert(self@ =~= old(self)@.after_loss());
    }

    /// Erases the draining entry of `wd`, whose marker the kernel is proved not
    /// to owe.
    pub fn erase_dead(&mut self, wd: i32)
        requires
            old(self).wf(),
            old(self)@.is_draining(wd),
        ensures
            final(self).wf(),
            final(self)@ == old(self)@.without(wd),
    {
        proof {
            law_every_operation_keeps_the_invariant(old(self)@, TableOp::EraseDead(wd));
        }
        self.entries.remove(&wd);
        assert(self@ =~= old(self)@.without(wd));
    }
}

/// Where `anchor` stands in `live`.
fn position_of(live: &Vec<WatchId>, anchor: WatchId) -> (r: Option<usize>)
    ensures
        match r {
            Some(i) => i < live@.len() && live@[i as int] == anchor,
            None => !live@.contains(anchor),
        },
{
    let mut i: usize = 0;
    while i < live.len()
        invariant
            i <= live@.len(),
            forall|j: int| 0 <= j < i ==> live@[j] != anchor,
        decreases live@.len() - i,
    {
        if live[i] == anchor {
            return Some(i);
        }
        i = i + 1;
    }
    None
}

/// One operation on a table.
pub enum TableOp {
    Register(i32, WatchId),
    Alias(i32, WatchId),
    Drain(WatchId),
    Ignored(i32),
    Loss,
    EraseDead(i32),
}

impl TableModel {
    /// Whether the table takes the operation.
    pub open spec fn takes(self, op: TableOp) -> bool {
        match op {
            TableOp::Register(wd, a) => self.can_register(wd, a),
            TableOp::Alias(wd, a) => self.can_alias(wd, a),
            TableOp::EraseDead(wd) => self.is_draining(wd),
            _ => true,
        }
    }

    /// The table after the operation.
    pub open spec fn after(self, op: TableOp) -> TableModel {
        match op {
            TableOp::Register(wd, a) => self.registered(wd, a),
            TableOp::Alias(wd, a) => self.aliased(wd, a),
            TableOp::Drain(a) => self.drained(a),
            TableOp::Ignored(wd) => self.ignored(wd),
            TableOp::Loss => self.after_loss(),
            TableOp::EraseDead(wd) => self.without(wd),
        }
    }
}

/// Every operation that a table takes keeps its invariant.
pub proof fn law_every_operation_keeps_the_invariant(t: TableModel, op: TableOp)
    requires
        t.wf(),
        t.takes(op),
    ensures
        t.after(op).wf(),
{
    match op {
        TableOp::Register(wd, a) => {
            let n = t.registered(wd, a);
            assert forall|w: i32, b: WatchId| #[trigger]
                n.attributes(w, b) <==> n.bound.contains_key(b) && n.bound[b] == w by {
                assert(t.attributes(w, b) <==> t.bound.contains_key(b) && t.bound[b] == w);
                if w == wd && b == a {
                    assert(n.entries[wd].live[0] == a);
                }
            }
        },
        TableOp::Alias(wd, a) => {
            let n = t.aliased(wd, a);
            if !t.attributes(wd, a) {
                let live = t.entries[wd].live;
                assert(!live.contains(a));
                assert(live.push(a).last() == a);
                assert forall|w: i32, b: WatchId| #[trigger]
                    n.attributes(w, b) <==> n.bound.contains_key(b) && n.bound[b] == w by {
                    assert(t.attributes(w, b) <==> t.bound.contains_key(b) && t.bound[b] == w);
                    assert(t.attributes(wd, b) <==> t.bound.contains_key(b) && t.bound[b] == wd);
                    if live.contains(b) {
                        let i = live.index_of(b);
                        assert(live.push(a)[i] == b);
                    }
                }
            }
        },
        TableOp::Drain(a) => {
            if t.bound.contains_key(a) {
                let n = t.drained(a);
                let wd = t.bound[a];
                assert(t.attributes(wd, a));
                let live = t.entries[wd].live;
                let at = live.index_of(a);
                let rest = live.remove(at);
                assert forall|b: WatchId| #[trigger]
                    rest.contains(b) <==> live.contains(b) && b != a by {
                    if live.contains(b) && b != a {
                        let i = live.index_of(b);
                        if i < at {
                            assert(rest[i] == b);
                        } else {
                            assert(rest[i - 1] == b);
                        }
                    }
                    if rest.contains(b) {
                        let i = rest.index_of(b);
                        if i < at {
                            assert(live[i] == b);
                        } else {
                            assert(live[i + 1] == b);
                        }
                    }
                }
                assert forall|w: i32, b: WatchId| #[trigger]
                    n.attributes(w, b) <==> n.bound.contains_key(b) && n.bound[b] == w by {
                    assert(t.attributes(w, b) <==> t.bound.contains_key(b) && t.bound[b] == w);
                    assert(t.attributes(wd, b) <==> t.bound.contains_key(b) && t.bound[b] == wd);
                    assert(t.attributes(w, a) <==> t.bound.contains_key(a) && t.bound[a] == w);
                }
            }
        },
        TableOp::Ignored(wd) => {
            let n = t.ignored(wd);
            assert forall|w: i32, b: WatchId| #[trigger]
                n.attributes(w, b) <==> n.bound.contains_key(b) && n.bound[b] == w by {
                assert(t.attributes(w, b) <==> t.bound.contains_key(b) && t.bound[b] == w);
            }
        },
        TableOp::Loss => {
            let n = t.after_loss();
            assert forall|w: i32, b: WatchId| #[trigger]
                n.attributes(w, b) <==> n.bound.contains_key(b) && n.bound[b] == w by {
                assert(t.attributes(w, b) <==> t.bound.contains_key(b) && t.bound[b] == w);
            }
        },
        TableOp::EraseDead(wd) => {
            let n = t.without(wd);
            assert forall|w: i32, b: WatchId| #[trigger]
                n.attributes(w, b) <==> n.bound.contains_key(b) && n.bound[b] == w by {
                assert(t.attributes(w, b) <==> t.bound.contains_key(b) && t.bound[b] == w);
            }
        },
    }
}

impl TableModel {
    /// Whether the table takes the operations one after the other.
    pub open spec fn takes_all(self, ops: Seq<TableOp>) -> bool
        decreases ops.len(),
    {
        ops.len() == 0 || (self.takes(ops.first()) && self.after(ops.first()).takes_all(
            ops.drop_first(),
        ))
    }

    /// The table after the operations.
    pub open spec fn after_all(self, ops: Seq<TableOp>) -> TableModel
        decreases ops.len(),
    {
        if ops.len() == 0 {
            self
        } else {
            self.after(ops.first()).after_all(ops.drop_first())
        }
    }

    /// How often the operations decide that the kernel watch `wd` must go.
    pub open spec fn removals(self, ops: Seq<TableOp>, wd: i32) -> nat
        decreases ops.len(),
    {
        if ops.len() == 0 {
            0
        } else {
            let here: nat = match ops.first() {
                TableOp::Drain(a) if self.drain_decision(a) == DrainDecision::RemoveWd(wd) => 1,
                _ => 0,
            };
            here + self.after(ops.first()).removals(ops.drop_first(), wd)
        }
    }
}

/// How often the operations register the descriptor `wd`.
pub open spec fn registrations(ops: Seq<TableOp>, wd: i32) -> nat
    decreases ops.len(),
{
    if ops.len() == 0 {
        0
    } else {
        let here: nat = match ops.first() {
            TableOp::Register(w, _) if w == wd => 1,
            _ => 0,
        };
        here + registrations(ops.drop_first(), wd)
    }
}

/// A kernel watch is removed at most once in its life: over any operations, a
/// descriptor's removal is decided no more often than the descriptor was
/// registered, its standing registration included.
pub proof fn law_a_watch_is_removed_at_most_once(t: TableModel, ops: Seq<TableOp>, wd: i32)
    requires
        t.wf(),
        t.takes_all(ops),
    ensures
        t.removals(ops, wd) + (if t.after_all(ops).is_live(wd) {
            1nat
        } else {
            0nat
        }) <= registrations(ops, wd) + (if t.is_live(wd) {
            1nat
        } else {
            0nat
        }),
    decreases ops.len(),
{
    if ops.len() > 0 {
        let op = ops.first();
        law_every_operation_keeps_the_invariant(t, op);
        if let TableOp::Drain(a) = op {
            if t.bound.contains_key(a) {
                assert(t.attributes(t.bound[a], a));
            }
        }
        law_a_watch_is_removed_at_most_once(t.after(op), ops.drop_first(), wd);
    }
}

/// A marker on an unmapped descriptor changes nothing and is nobody's.
pub proof fn law_a_straggling_marker_is_a_no_op(t: TableModel, wd: i32)
    requires
        t.wf(),
        !t.entries.contains_key(wd),
    ensures
        t.ignored(wd) == t,
        t.anchors(wd).len() == 0,
{
    assert forall|a: WatchId| #[trigger] t.bound.contains_key(a) implies t.bound[a] != wd by {
        assert(t.attributes(t.bound[a], a));
    }
    assert(t.ignored(wd) =~= t);
}

/// A loss is invisible to attribution: every descriptor keeps its anchors and
/// every anchor its descriptor. It is also all that a second loss could do.
pub proof fn law_a_loss_keeps_every_binding(t: TableModel, wd: i32)
    requires
        t.wf(),
    ensures
        t.after_loss().anchors(wd) == t.anchors(wd),
        t.after_loss().bound == t.bound,
        !t.after_loss().is_draining(wd),
        t.after_loss().after_loss() == t.after_loss(),
{
    assert(t.after_loss().anchors(wd) =~= t.anchors(wd));
    assert(t.after_loss().after_loss() =~= t.after_loss());
}

/// An anchor that has left is bound nowhere, and every other anchor keeps its
/// descriptor. If it was its descriptor's last, the descriptor stays mapped
/// with nobody to attribute to until the marker erases it.
pub proof fn law_draining_ends_one_binding(t: TableModel, a: WatchId, b: WatchId)
    requires
        t.wf(),
        b != a,
    ensures
        !t.drained(a).bound.contains_key(a),
        t.drained(a).bound.contains_key(b) <==> t.bound.contains_key(b),
        t.bound.contains_key(b) ==> t.drained(a).bound[b] == t.bound[b],
        t.drain_decision(a) matches DrainDecision::RemoveWd(wd) ==> {
            &&& t.bound[a] == wd
            &&& t.drained(a).is_draining(wd)
            &&& t.drained(a).ignored(wd).entries == t.entries.remove(wd)
        },
{
    if t.bound.contains_key(a) {
        let wd = t.bound[a];
        assert(t.attributes(wd, a));
        assert(t.drained(a).ignored(wd).entries =~= t.entries.remove(wd));
    }
}

impl TableModel {
    /// Whether no descriptor beyond `last` is mapped.
    pub open spec fn maps_within(self, last: int) -> bool {
        forall|wd: i32| #[trigger] self.entries.contains_key(wd) ==> wd <= last
    }
}

/// Where descriptors are granted in increasing order, a fresh one is never
/// mapped: if the table maps none beyond the last grant, it maps none beyond it
/// after any operation, and a later grant can be registered for any anchor that
/// is not bound.
pub proof fn law_a_fresh_grant_is_never_mapped(
    t: TableModel,
    op: TableOp,
    last: int,
    wd: i32,
    a: WatchId,
)
    requires
        t.wf(),
        t.takes(op),
        t.maps_within(last),
        op matches TableOp::Register(granted, _) ==> granted <= last,
        wd > last,
    ensures
        t.after(op).maps_within(last),
        !t.entries.contains_key(wd),
        !t.bound.contains_key(a) ==> t.can_register(wd, a) && t.registered(
            wd,
            a,
        ).maps_within(wd as int),
{
    if let TableOp::Drain(b) = op {
        if t.bound.contains_key(b) {
            assert(t.attributes(t.bound[b], b));
        }
    }
}

} // verus!
