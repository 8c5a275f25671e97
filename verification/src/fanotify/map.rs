//! The map of a watched root's directories.
//!
//! fanotify reports on a whole filesystem. What belongs to the watched root is
//! told by this map: it holds every directory of the root by its handle, and
//! each directory but the root hangs in another one of the map. A directory's
//! path is read along those links, so moving a directory moves all that is
//! beneath it.

use vstd::prelude::*;

use crate::bytemap::ByteMap;
use crate::fanotify::fid::{EntryModel, Fid, SeedEntry};
use crate::path::{copy_bytes, join, joined, same_bytes, views};

verus! {

/// One directory.
#[derive(Debug)]
struct Node {
    /// The handle of the directory it hangs in; none for the root.
    parent: Option<Vec<u8>>,
    name: Vec<u8>,
    /// Whether what is beneath it is still to be walked.
    pending: bool,
}

/// What a `Node` stands for.
pub struct NodeModel {
    pub parent: Option<Seq<u8>>,
    pub name: Seq<u8>,
    pub pending: bool,
}

impl View for Node {
    type V = NodeModel;

    closed spec fn view(&self) -> NodeModel {
        NodeModel {
            parent: match self.parent {
                Some(p) => Some(p@),
                None => None,
            },
            name: self.name@,
            pending: self.pending,
        }
    }
}

/// The path of `h`, read along at most `n` links.
pub open spec fn path_in(nodes: Map<Seq<u8>, NodeModel>, h: Seq<u8>, n: nat) -> Option<Seq<u8>>
    decreases n,
{
    if !nodes.contains_key(h) {
        None
    } else {
        match nodes[h].parent {
            None => Some(nodes[h].name),
            Some(p) => if n == 0 {
                None
            } else {
                match path_in(nodes, p, (n - 1) as nat) {
                    Some(dir) => Some(joined(dir, nodes[h].name)),
                    None => None,
                }
            },
        }
    }
}

/// Whether `k` is `h` or hangs beneath it by at most `n` links.
pub open spec fn under(nodes: Map<Seq<u8>, NodeModel>, k: Seq<u8>, h: Seq<u8>, n: nat) -> bool
    decreases n,
{
    nodes.contains_key(k) && (k == h || match nodes[k].parent {
        None => false,
        Some(p) => n > 0 && under(nodes, p, h, (n - 1) as nat),
    })
}

/// Whether the links of `h` lead to the root.
pub open spec fn is_rooted(nodes: Map<Seq<u8>, NodeModel>, h: Seq<u8>) -> bool {
    exists|n: nat| #[trigger] path_in(nodes, h, n) is Some
}

/// Whether `k` is `h` or hangs beneath it.
pub open spec fn lies_in(nodes: Map<Seq<u8>, NodeModel>, k: Seq<u8>, h: Seq<u8>) -> bool {
    exists|n: nat| #[trigger] under(nodes, k, h, n)
}

/// What a `FidMap` stands for.
#[verifier::ext_equal]
pub struct MapModel {
    pub nodes: Map<Seq<u8>, NodeModel>,
    /// Changes with every change of the map.
    pub generation: u64,
    /// The most directories the map is meant to hold.
    pub capacity: Option<usize>,
}

/// The generation after `g`.
pub open spec fn bumped(g: u64) -> u64 {
    if g == u64::MAX {
        0
    } else {
        (g + 1) as u64
    }
}

impl MapModel {
    /// The map's invariant: there is one root at most, and every directory's
    /// links lead to it.
    pub open spec fn wf(self) -> bool {
        &&& forall|h: Seq<u8>| #[trigger] self.nodes.contains_key(h) ==> is_rooted(self.nodes, h)
        &&& forall|a: Seq<u8>, b: Seq<u8>| #[trigger]
            self.is_root(a) && #[trigger] self.is_root(b) ==> a == b
    }

    /// Whether `h` is in the map.
    pub open spec fn holds(self, h: Seq<u8>) -> bool {
        self.nodes.contains_key(h)
    }

    /// Whether `h` is the root.
    pub open spec fn is_root(self, h: Seq<u8>) -> bool {
        self.nodes.contains_key(h) && self.nodes[h].parent is None
    }

    /// The path of `h`.
    pub open spec fn path_of(self, h: Seq<u8>) -> Option<Seq<u8>> {
        if is_rooted(self.nodes, h) {
            path_in(self.nodes, h, choose|n: nat| #[trigger] path_in(self.nodes, h, n) is Some)
        } else {
            None
        }
    }

    /// Whether `h` can hang in `p`: `p` is in the map, and not beneath `h`.
    pub open spec fn can_hang(self, h: Seq<u8>, p: Seq<u8>) -> bool {
        self.holds(p) && !lies_in(self.nodes, p, h)
    }

    /// The map once `h` hangs in `p` as `name`. A directory that is in the map
    /// already moves with all that is beneath it. Where `h` cannot hang in `p`
    /// the map stays as it is.
    pub open spec fn hung(self, h: Seq<u8>, p: Seq<u8>, name: Seq<u8>, pending: bool) -> MapModel {
        if self.can_hang(h, p) {
            let node = NodeModel {
                parent: Some(p),
                name,
                pending: if self.holds(h) {
                    self.nodes[h].pending
                } else {
                    pending
                },
            };
            MapModel {
                nodes: self.nodes.insert(h, node),
                generation: bumped(self.generation),
                ..self
            }
        } else {
            self
        }
    }

    /// The map without `h` and all that is beneath it. The root stays.
    pub open spec fn forgotten(self, h: Seq<u8>) -> MapModel {
        if self.holds(h) && !self.is_root(h) {
            MapModel {
                nodes: Map::new(
                    |k: Seq<u8>| self.holds(k) && !lies_in(self.nodes, k, h),
                    |k: Seq<u8>| self.nodes[k],
                ),
                generation: bumped(self.generation),
                ..self
            }
        } else {
            self
        }
    }

    /// The map once what is beneath `h` has been walked.
    pub open spec fn walked(self, h: Seq<u8>) -> MapModel {
        if self.holds(h) && self.nodes[h].pending {
            MapModel {
                nodes: self.nodes.insert(h, NodeModel { pending: false, ..self.nodes[h] }),
                generation: bumped(self.generation),
                ..self
            }
        } else {
            self
        }
    }

    /// The map with the directory of a seed's entry. A root is taken only by a
    /// map without one.
    pub open spec fn with_entry(self, entry: EntryModel) -> MapModel {
        match entry.parent {
            Some(parent) => self.hung(entry.fid.handle, parent.handle, entry.name, false),
            None => if self.nodes.dom().len() == 0 {
                MapModel {
                    nodes: self.nodes.insert(
                        entry.fid.handle,
                        NodeModel { parent: None, name: entry.name, pending: false },
                    ),
                    generation: bumped(self.generation),
                    ..self
                }
            } else {
                self
            },
        }
    }

    /// The map with the directories of a seed, taken in order.
    pub open spec fn with_entries(self, entries: Seq<EntryModel>) -> MapModel
        decreases entries.len(),
    {
        if entries.len() == 0 {
            self
        } else {
            self.with_entries(entries.drop_last()).with_entry(entries.last())
        }
    }
}

proof fn lemma_path_monotone(nodes: Map<Seq<u8>, NodeModel>, h: Seq<u8>, n: nat, m: nat)
    requires
        n <= m,
        path_in(nodes, h, n) is Some,
    ensures
        path_in(nodes, h, m) == path_in(nodes, h, n),
    decreases n,
{
    if let Some(p) = nodes[h].parent {
        lemma_path_monotone(nodes, p, (n - 1) as nat, (m - 1) as nat);
    }
}

/// However many links are allowed, a path comes out the same.
proof fn lemma_path_of(map: MapModel, h: Seq<u8>, n: nat)
    requires
        path_in(map.nodes, h, n) is Some,
    ensures
        map.path_of(h) == path_in(map.nodes, h, n),
{
    let m = choose|m: nat| #[trigger] path_in(map.nodes, h, m) is Some;
    assert(path_in(map.nodes, h, m) is Some);
    if n <= m {
        lemma_path_monotone(map.nodes, h, n, m);
    } else {
        lemma_path_monotone(map.nodes, h, m, n);
    }
}

/// What hangs in a directory beneath `h` is beneath `h`.
proof fn lemma_lies_in_step(nodes: Map<Seq<u8>, NodeModel>, k: Seq<u8>, h: Seq<u8>)
    requires
        nodes.contains_key(k),
    ensures
        lies_in(nodes, k, k),
        k != h && nodes[k].parent is Some ==> (lies_in(nodes, k, h) <==> lies_in(
            nodes,
            nodes[k].parent->0,
            h,
        )),
        k != h && nodes[k].parent is None ==> !lies_in(nodes, k, h),
{
    assert(under(nodes, k, k, 0));
    if k != h {
        if let Some(p) = nodes[k].parent {
            if lies_in(nodes, p, h) {
                let n = choose|n: nat| #[trigger] under(nodes, p, h, n);
                assert(under(nodes, k, h, n + 1));
            }
            if lies_in(nodes, k, h) {
                let n = choose|n: nat| #[trigger] under(nodes, k, h, n);
                assert(under(nodes, p, h, (n - 1) as nat));
            }
        } else {
            if lies_in(nodes, k, h) {
                let n = choose|n: nat| #[trigger] under(nodes, k, h, n);
            }
        }
    }
}

/// What is not beneath `h` reads the same whatever becomes of `h`.
proof fn lemma_path_beside(
    a: Map<Seq<u8>, NodeModel>,
    b: Map<Seq<u8>, NodeModel>,
    h: Seq<u8>,
    k: Seq<u8>,
    n: nat,
)
    requires
        path_in(a, k, n) is Some,
        !lies_in(a, k, h),
        forall|x: Seq<u8>| #[trigger]
            a.contains_key(x) && !lies_in(a, x, h) ==> b.contains_key(x) && b[x] == a[x],
    ensures
        path_in(b, k, n) == path_in(a, k, n),
    decreases n,
{
    lemma_lies_in_step(a, k, h);
    if let Some(p) = a[k].parent {
        lemma_path_beside(a, b, h, p, (n - 1) as nat);
    }
}

/// What is not beneath `h` keeps its path when `h` is hung elsewhere.
proof fn lemma_hung_beside(
    map: MapModel,
    h: Seq<u8>,
    p: Seq<u8>,
    name: Seq<u8>,
    pending: bool,
    k: Seq<u8>,
    n: nat,
)
    requires
        path_in(map.nodes, k, n) is Some,
        !lies_in(map.nodes, k, h),
    ensures
        path_in(map.hung(h, p, name, pending).nodes, k, n) == path_in(map.nodes, k, n),
{
    let after = map.hung(h, p, name, pending).nodes;
    assert forall|x: Seq<u8>| #[trigger]
        map.nodes.contains_key(x) && !lies_in(map.nodes, x, h) implies after.contains_key(x)
        && after[x] == map.nodes[x] by {
        lemma_lies_in_step(map.nodes, x, h);
    }
    lemma_path_beside(map.nodes, after, h, k, n);
}

/// What is beneath `h` is rooted again once `h` hangs elsewhere.
proof fn lemma_hung_beneath(
    map: MapModel,
    h: Seq<u8>,
    p: Seq<u8>,
    name: Seq<u8>,
    pending: bool,
    k: Seq<u8>,
    n: nat,
)
    requires
        map.wf(),
        map.can_hang(h, p),
        k == h || path_in(map.nodes, k, n) is Some,
    ensures
        is_rooted(map.hung(h, p, name, pending).nodes, k),
    decreases n,
{
    let after = map.hung(h, p, name, pending).nodes;
    if k == h {
        let m = choose|m: nat| #[trigger] path_in(map.nodes, p, m) is Some;
        assert(is_rooted(map.nodes, p));
        lemma_hung_beside(map, h, p, name, pending, p, m);
        assert(path_in(after, h, m + 1) is Some);
    } else if !lies_in(map.nodes, k, h) {
        lemma_hung_beside(map, h, p, name, pending, k, n);
        assert(path_in(after, k, n) is Some);
    } else {
        lemma_lies_in_step(map.nodes, k, h);
        let q = map.nodes[k].parent->0;
        lemma_hung_beneath(map, h, p, name, pending, q, (n - 1) as nat);
        let m = choose|m: nat| #[trigger] path_in(after, q, m) is Some;
        assert(path_in(after, k, m + 1) is Some);
    }
}

/// Hanging a directory keeps the map's invariant.
pub proof fn law_hanging_keeps_the_invariant(
    map: MapModel,
    h: Seq<u8>,
    p: Seq<u8>,
    name: Seq<u8>,
    pending: bool,
)
    requires
        map.wf(),
    ensures
        map.hung(h, p, name, pending).wf(),
{
    if map.can_hang(h, p) {
        let after = map.hung(h, p, name, pending);
        assert forall|k: Seq<u8>| #[trigger] after.nodes.contains_key(k) implies is_rooted(
            after.nodes,
            k,
        ) by {
            if k == h {
                lemma_hung_beneath(map, h, p, name, pending, k, 0);
            } else {
                assert(map.nodes.contains_key(k));
                let n = choose|n: nat| #[trigger] path_in(map.nodes, k, n) is Some;
                lemma_hung_beneath(map, h, p, name, pending, k, n);
            }
        }
        assert forall|a: Seq<u8>, b: Seq<u8>| #[trigger]
            after.is_root(a) && #[trigger] after.is_root(b) implies a == b by {
            assert(map.is_root(a) && map.is_root(b));
        }
    }
}

/// A path does not depend on what is still to be walked.
proof fn lemma_path_of_walked(map: MapModel, h: Seq<u8>, k: Seq<u8>, n: nat)
    ensures
        path_in(map.walked(h).nodes, k, n) == path_in(map.nodes, k, n),
    decreases n,
{
    if map.nodes.contains_key(k) && n > 0 {
        if let Some(p) = map.nodes[k].parent {
            lemma_path_of_walked(map, h, p, (n - 1) as nat);
        }
    }
}

/// That a directory has been walked keeps the map's invariant and leaves every
/// path as it is.
pub proof fn law_a_walked_directory_stays_in_place(map: MapModel, h: Seq<u8>, k: Seq<u8>)
    requires
        map.wf(),
    ensures
        map.walked(h).wf(),
        map.walked(h).holds(k) == map.holds(k),
        map.walked(h).path_of(k) == map.path_of(k),
        map.holds(h) ==> !map.walked(h).nodes[h].pending,
{
    let after = map.walked(h);
    assert forall|x: Seq<u8>| #[trigger] after.nodes.contains_key(x) implies is_rooted(
        after.nodes,
        x,
    ) by {
        assert(map.nodes.contains_key(x));
        let n = choose|n: nat| #[trigger] path_in(map.nodes, x, n) is Some;
        lemma_path_of_walked(map, h, x, n);
        assert(path_in(after.nodes, x, n) is Some);
    }
    assert forall|a: Seq<u8>, b: Seq<u8>| #[trigger]
        after.is_root(a) && #[trigger] after.is_root(b) implies a == b by {
        assert(map.is_root(a) && map.is_root(b));
    }
    if is_rooted(map.nodes, k) {
        let n = choose|n: nat| #[trigger] path_in(map.nodes, k, n) is Some;
        lemma_path_of_walked(map, h, k, n);
        lemma_path_of(map, k, n);
        lemma_path_of(after, k, n);
    } else if is_rooted(after.nodes, k) {
        let n = choose|n: nat| #[trigger] path_in(after.nodes, k, n) is Some;
        lemma_path_of_walked(map, h, k, n);
        assert(path_in(map.nodes, k, n) is Some);
    }
}

/// Forgetting a directory keeps the map's invariant.
pub proof fn law_forgetting_keeps_the_invariant(map: MapModel, h: Seq<u8>)
    requires
        map.wf(),
    ensures
        map.forgotten(h).wf(),
{
    let after = map.forgotten(h);
    if map.holds(h) && !map.is_root(h) {
        assert forall|k: Seq<u8>| #[trigger] after.nodes.contains_key(k) implies is_rooted(
            after.nodes,
            k,
        ) by {
            let n = choose|n: nat| #[trigger] path_in(map.nodes, k, n) is Some;
            assert(is_rooted(map.nodes, k));
            lemma_path_beside(map.nodes, after.nodes, h, k, n);
            assert(path_in(after.nodes, k, n) is Some);
        }
        assert forall|a: Seq<u8>, b: Seq<u8>| #[trigger]
            after.is_root(a) && #[trigger] after.is_root(b) implies a == b by {
            assert(map.is_root(a) && map.is_root(b));
        }
    }
}

/// Taking in a seed keeps the map's invariant.
pub proof fn law_a_seed_keeps_the_invariant(map: MapModel, entries: Seq<EntryModel>)
    requires
        map.wf(),
        map.nodes.dom().finite(),
    ensures
        map.with_entries(entries).wf(),
        map.with_entries(entries).nodes.dom().finite(),
    decreases entries.len(),
{
    if entries.len() > 0 {
        law_a_seed_keeps_the_invariant(map, entries.drop_last());
        let before = map.with_entries(entries.drop_last());
        let entry = entries.last();
        lemma_entry_keeps_wf(before, entry);
    }
}

proof fn lemma_entry_keeps_wf(map: MapModel, entry: EntryModel)
    requires
        map.wf(),
        map.nodes.dom().finite(),
    ensures
        map.with_entry(entry).wf(),
        map.with_entry(entry).nodes.dom().finite(),
{
    match entry.parent {
        Some(parent) => {
            law_hanging_keeps_the_invariant(
                map,
                entry.fid.handle,
                parent.handle,
                entry.name,
                false,
            );
        },
        None => {
            if map.nodes.dom().len() == 0 {
                assert(map.nodes.dom() =~= Set::empty());
                let after = map.with_entry(entry);
                let h = entry.fid.handle;
                assert(path_in(after.nodes, h, 0) is Some);
                assert forall|k: Seq<u8>| #[trigger] after.nodes.contains_key(k) implies is_rooted(
                    after.nodes,
                    k,
                ) by {
                    assert(k == h || map.nodes.dom().contains(k));
                }
                assert forall|a: Seq<u8>, b: Seq<u8>| #[trigger]
                    after.is_root(a) && #[trigger] after.is_root(b) implies a == b by {
                    assert(a == h || map.nodes.dom().contains(a));
                    assert(b == h || map.nodes.dom().contains(b));
                }
            }
        },
    }
}

/// The map has a path for a directory exactly if it holds the directory.
pub proof fn law_the_map_reaches_what_it_holds(map: MapModel, h: Seq<u8>)
    requires
        map.wf(),
    ensures
        map.path_of(h) is Some <==> map.holds(h),
{
    if map.holds(h) {
        assert(is_rooted(map.nodes, h));
        let n = choose|n: nat| #[trigger] path_in(map.nodes, h, n) is Some;
        lemma_path_of(map, h, n);
    } else if is_rooted(map.nodes, h) {
        let n = choose|n: nat| #[trigger] path_in(map.nodes, h, n) is Some;
        assert(path_in(map.nodes, h, n) is Some);
    }
}

/// Nothing hangs beneath what the map does not hold.
pub proof fn law_nothing_lies_in_what_is_not_held(map: MapModel, k: Seq<u8>, h: Seq<u8>)
    ensures
        lies_in(map.nodes, k, h) ==> map.holds(h),
{
    if lies_in(map.nodes, k, h) {
        let n = choose|n: nat| #[trigger] under(map.nodes, k, h, n);
        lemma_under_is_held(map.nodes, k, h, n);
    }
}

proof fn lemma_under_is_held(nodes: Map<Seq<u8>, NodeModel>, k: Seq<u8>, h: Seq<u8>, n: nat)
    requires
        under(nodes, k, h, n),
    ensures
        nodes.contains_key(h),
    decreases n,
{
    if k != h {
        lemma_under_is_held(nodes, nodes[k].parent->0, h, (n - 1) as nat);
    }
}

/// A directory that was hung is found at its name in the directory it hangs in,
/// and all that is not beneath it keeps its path.
pub proof fn law_hanging_moves_one_subtree(
    map: MapModel,
    h: Seq<u8>,
    p: Seq<u8>,
    name: Seq<u8>,
    pending: bool,
    k: Seq<u8>,
)
    requires
        map.wf(),
        map.can_hang(h, p),
    ensures
        map.hung(h, p, name, pending).path_of(h) == Some(joined(map.path_of(p)->0, name)),
        map.holds(k) && !lies_in(map.nodes, k, h) ==> map.hung(h, p, name, pending).path_of(k)
            == map.path_of(k),
        map.hung(h, p, name, pending).holds(k) <==> map.holds(k) || k == h,
{
    let after = map.hung(h, p, name, pending);
    assert(is_rooted(map.nodes, p));
    let m = choose|m: nat| #[trigger] path_in(map.nodes, p, m) is Some;
    lemma_path_of(map, p, m);
    lemma_hung_beside(map, h, p, name, pending, p, m);
    assert(path_in(after.nodes, h, m + 1) == Some(joined(map.path_of(p)->0, name)));
    lemma_path_of(after, h, m + 1);
    if map.holds(k) && !lies_in(map.nodes, k, h) {
        assert(is_rooted(map.nodes, k));
        let n = choose|n: nat| #[trigger] path_in(map.nodes, k, n) is Some;
        lemma_path_of(map, k, n);
        lemma_hung_beside(map, h, p, name, pending, k, n);
        lemma_path_of(after, k, n);
    }
}

/// A directory that hangs in another one is found at its name there, whatever
/// was moved before: paths are read along the links and never go stale.
pub proof fn law_a_path_follows_its_links(map: MapModel, k: Seq<u8>)
    requires
        map.wf(),
        map.holds(k),
    ensures
        map.path_of(k) == match map.nodes[k].parent {
            Some(p) => Some(joined(map.path_of(p)->0, map.nodes[k].name)),
            None => Some(map.nodes[k].name),
        },
        map.nodes[k].parent matches Some(p) ==> map.holds(p),
{
    assert(is_rooted(map.nodes, k));
    let n = choose|n: nat| #[trigger] path_in(map.nodes, k, n) is Some;
    lemma_path_of(map, k, n);
    if let Some(p) = map.nodes[k].parent {
        lemma_path_of(map, p, (n - 1) as nat);
    }
}

/// Forgetting a directory other than the root takes it out with all that is
/// beneath it, and all else keeps its path.
pub proof fn law_forgetting_prunes_one_subtree(map: MapModel, h: Seq<u8>, k: Seq<u8>)
    requires
        map.wf(),
        map.holds(h),
        !map.is_root(h),
    ensures
        map.forgotten(h).holds(k) <==> map.holds(k) && !lies_in(map.nodes, k, h),
        map.forgotten(h).holds(k) ==> map.forgotten(h).path_of(k) == map.path_of(k),
        !map.forgotten(h).holds(h),
{
    let after = map.forgotten(h);
    lemma_lies_in_step(map.nodes, h, h);
    if after.holds(k) {
        assert(is_rooted(map.nodes, k));
        let n = choose|n: nat| #[trigger] path_in(map.nodes, k, n) is Some;
        lemma_path_of(map, k, n);
        lemma_path_beside(map.nodes, after.nodes, h, k, n);
        lemma_path_of(after, k, n);
    }
}

/// The directories of a watched root.
#[derive(Debug)]
pub struct FidMap {
    nodes: ByteMap<Node>,
    /// The handles in the map, in the order they came.
    order: Vec<Vec<u8>>,
    generation: u64,
    capacity: Option<usize>,
}

impl View for FidMap {
    type V = MapModel;

    closed spec fn view(&self) -> MapModel {
        MapModel {
            nodes: self.nodes@.map_values(|n: Node| n@),
            generation: self.generation,
            capacity: self.capacity,
        }
    }
}

/// Adding an element to a list adds it to the list's set.
proof fn lemma_push_to_set(list: Seq<Seq<u8>>, h: Seq<u8>)
    ensures
        list.push(h).to_set() == list.to_set().insert(h),
{
    assert forall|k: Seq<u8>| #[trigger]
        list.push(h).to_set().contains(k) <==> list.to_set().insert(h).contains(k) by {
        if list.contains(k) {
            assert(list.push(h)[list.index_of(k)] == k);
        }
        assert(list.push(h)[list.len() as int] == h);
        if list.push(h).contains(k) {
            let i = list.push(h).index_of(k);
            if i < list.len() {
                assert(list[i] == k);
            }
        }
    }
    assert(list.push(h).to_set() =~= list.to_set().insert(h));
}

impl FidMap {
    /// The map's invariant, and its list of handles.
    pub closed spec fn wf(&self) -> bool {
        &&& self.nodes.wf()
        &&& self@.wf()
        &&& views(self.order@).no_duplicates()
        &&& views(self.order@).to_set() == self.nodes@.dom()
    }

    /// What follows from the invariant for a reader of the map.
    pub proof fn lemma_wf(&self)
        requires
            self.wf(),
        ensures
            self@.wf(),
            self@.nodes.dom().finite(),
    {
        assert(self@.nodes.dom() =~= self.nodes@.dom());
        vstd::seq_lib::seq_to_set_is_finite(views(self.order@));
    }

    /// An empty map.
    pub fn new() -> (r: FidMap)
        ensures
            r.wf(),
            r@ == (MapModel { nodes: Map::empty(), generation: 0, capacity: None }),
    {
        FidMap::with_capacity(None)
    }

    /// An empty map that is meant to hold `capacity` directories at most.
    pub fn with_capacity(capacity: Option<usize>) -> (r: FidMap)
        ensures
            r.wf(),
            r@ == (MapModel { nodes: Map::empty(), generation: 0, capacity }),
    {
        let r = FidMap { nodes: ByteMap::new(), order: Vec::new(), generation: 0, capacity };
        proof {
            assert(r@.nodes =~= Map::empty());
            assert(views(r.order@) =~= Seq::empty());
            assert(views(r.order@).to_set() =~= r.nodes@.dom());
        }
        r
    }

    /// Whether the directory is in the map.
    pub fn contains(&self, fid: &Fid) -> (r: bool)
        requires
            self.wf(),
        ensures
            r == self@.holds(fid@.handle),
    {
        self.nodes.get(fid.handle()).is_some()
    }

    /// Whether the directory is the root.
    pub fn is_root(&self, fid: &Fid) -> (r: bool)
        requires
            self.wf(),
        ensures
            r == self@.is_root(fid@.handle),
    {
        match self.nodes.get(fid.handle()) {
            Some(node) => node.parent.is_none(),
            None => false,
        }
    }

    /// How many directories are in the map.
    pub fn dir_count(&self) -> (r: usize)
        requires
            self.wf(),
        ensures
            r == self@.nodes.dom().len(),
    {
        proof {
            assert(self@.nodes.dom() =~= self.nodes@.dom());
            views(self.order@).unique_seq_to_set();
        }
        self.order.len()
    }

    /// The map's generation.
    pub fn generation(&self) -> (r: u64)
        ensures
            r == self@.generation,
    {
        self.generation
    }

    /// Whether the map holds more directories than it is meant to.
    pub fn over_capacity(&self) -> (r: bool)
        requires
            self.wf(),
        ensures
            r == (self@.capacity matches Some(most) && self@.nodes.dom().len() > most),
    {
        match self.capacity {
            Some(most) => self.dir_count() > most,
            None => false,
        }
    }

    /// The path of `h`, which leads to the root by `n` links.
    fn read_path(&self, h: &[u8], Ghost(n): Ghost<nat>) -> (r: Vec<u8>)
        requires
            self.wf(),
            path_in(self@.nodes, h@, n) is Some,
        ensures
            path_in(self@.nodes, h@, n) == Some(r@),
        decreases n,
    {
        match self.nodes.get(h) {
            Some(node) => match &node.parent {
                Some(parent) => {
                    let dir = self.read_path(parent.as_slice(), Ghost((n - 1) as nat));
                    join(dir.as_slice(), node.name.as_slice())
                },
                None => copy_bytes(node.name.as_slice()),
            },
            None => {
                assert(false);
                Vec::new()
            },
        }
    }

    /// The path of the directory with this handle.
    pub fn path_at(&self, handle: &[u8]) -> (r: Option<Vec<u8>>)
        requires
            self.wf(),
        ensures
            match r {
                Some(path) => self@.path_of(handle@) == Some(path@),
                None => self@.path_of(handle@) is None,
            },
            r is Some <==> self@.holds(handle@),
    {
        if self.nodes.get(handle).is_none() {
            proof {
                if is_rooted(self@.nodes, handle@) {
                    let n = choose|n: nat| #[trigger] path_in(self@.nodes, handle@, n) is Some;
                    assert(path_in(self@.nodes, handle@, n) is Some);
                }
            }
            return None;
        }
        assert(self@.holds(handle@));
        let ghost n = choose|n: nat| #[trigger] path_in(self@.nodes, handle@, n) is Some;
        proof {
            assert(is_rooted(self@.nodes, handle@));
            lemma_path_of(self@, handle@, n);
        }
        Some(self.read_path(handle, Ghost(n)))
    }

    /// The path of a directory.
    pub fn resolve_path(&self, fid: &Fid) -> (r: Option<Vec<u8>>)
        requires
            self.wf(),
        ensures
            match r {
                Some(path) => self@.path_of(fid@.handle) == Some(path@),
                None => self@.path_of(fid@.handle) is None,
            },
            r is Some <==> self@.holds(fid@.handle),
    {
        self.path_at(fid.handle())
    }

    /// The path of a directory, and whether what is beneath it is still to be
    /// walked.
    pub fn pending_walk_target(&self, fid: &Fid) -> (r: Option<(Vec<u8>, bool)>)
        requires
            self.wf(),
        ensures
            match r {
                Some((path, pending)) => self@.holds(fid@.handle) && self@.path_of(fid@.handle)
                    == Some(path@) && pending == self@.nodes[fid@.handle].pending,
                None => !self@.holds(fid@.handle),
            },
    {
        let path = match self.resolve_path(fid) {
            Some(path) => path,
            None => {
                return None;
            },
        };
        match self.nodes.get(fid.handle()) {
            Some(node) => Some((path, node.pending)),
            None => None,
        }
    }

    /// Whether `k`, which leads to the root by `n` links, is `h` or hangs
    /// beneath it.
    fn climbs_to(&self, k: &[u8], h: &[u8], Ghost(n): Ghost<nat>) -> (r: bool)
        requires
            self.wf(),
            path_in(self@.nodes, k@, n) is Some,
        ensures
            r == lies_in(self@.nodes, k@, h@),
        decreases n,
    {
        proof {
            lemma_lies_in_step(self@.nodes, k@, h@);
        }
        if same_bytes(k, h) {
            return true;
        }
        match self.nodes.get(k) {
            Some(node) => match &node.parent {
                Some(parent) => self.climbs_to(parent.as_slice(), h, Ghost((n - 1) as nat)),
                None => false,
            },
            None => false,
        }
    }

    /// Whether `k` is `h` or hangs beneath it.
    fn is_beneath(&self, k: &[u8], h: &[u8]) -> (r: bool)
        requires
            self.wf(),
            self@.holds(k@),
        ensures
            r == lies_in(self@.nodes, k@, h@),
    {
        assert(is_rooted(self@.nodes, k@));
        let ghost n = choose|n: nat| #[trigger] path_in(self@.nodes, k@, n) is Some;
        self.climbs_to(k, h, Ghost(n))
    }

    /// Whether the directory `h` can hang in `p`.
    pub fn takes(&self, h: &[u8], p: &[u8]) -> (r: bool)
        requires
            self.wf(),
        ensures
            r == self@.can_hang(h@, p@),
    {
        self.nodes.get(p).is_some() && !self.is_beneath(p, h)
    }

    /// Changes the generation.
    fn bump(&mut self)
        ensures
            final(self).nodes == old(self).nodes,
            final(self).order == old(self).order,
            final(self).capacity == old(self).capacity,
            final(self).generation == bumped(old(self).generation),
    {
        if self.generation == u64::MAX {
            self.generation = 0;
        } else {
            self.generation = self.generation + 1;
        }
    }

    /// Puts a directory into the map, over one of the same handle.
    fn put(&mut self, h: &[u8], node: Node)
        requires
            old(self).nodes.wf(),
            views(old(self).order@).no_duplicates(),
            views(old(self).order@).to_set() == old(self).nodes@.dom(),
        ensures
            final(self).nodes.wf(),
            views(final(self).order@).no_duplicates(),
            views(final(self).order@).to_set() == final(self).nodes@.dom(),
            final(self)@ == (MapModel {
                nodes: old(self)@.nodes.insert(h@, node@),
                generation: bumped(old(self).generation),
                ..old(self)@
            }),
    {
        let ghost list = views(self.order@);
        if self.nodes.get(h).is_none() {
            let key = copy_bytes(h);
            self.order.push(key);
            proof {
                assert(views(self.order@) =~= list.push(h@));
                lemma_push_to_set(list, h@);
                assert(!list.contains(h@)) by {
                    assert(!list.to_set().contains(h@));
                }
            }
        } else {
            assert(list.to_set().insert(h@) =~= list.to_set());
        }
        self.nodes.insert(h, node);
        self.bump();
        proof {
            assert(self.nodes@.dom() =~= old(self).nodes@.dom().insert(h@));
            assert(self@.nodes =~= old(self)@.nodes.insert(h@, node@));
        }
    }

    /// Hangs the directory `h` in `p` as `name`. A directory that is in the map
    /// already moves with all that is beneath it, and is still to be walked
    /// exactly if it was; a new one is if `pending` says so. Where `h` cannot
    /// hang in `p` nothing changes.
    pub fn hang(&mut self, h: &[u8], p: &[u8], name: &[u8], pending: bool)
        requires
            old(self).wf(),
        ensures
            final(self).wf(),
            final(self)@ == old(self)@.hung(h@, p@, name@, pending),
    {
        if !self.takes(h, p) {
            return ;
        }
        proof {
            law_hanging_keeps_the_invariant(self@, h@, p@, name@, pending);
        }
        let owed = match self.nodes.get(h) {
            Some(node) => node.pending,
            None => pending,
        };
        let node = Node { parent: Some(copy_bytes(p)), name: copy_bytes(name), pending: owed };
        self.put(h, node);
    }

    /// Notes that what is beneath `h` has been walked.
    pub fn on_walked(&mut self, h: &[u8])
        requires
            old(self).wf(),
        ensures
            final(self).wf(),
            final(self)@ == old(self)@.walked(h@),
    {
        let node = match self.nodes.get(h) {
            Some(node) => {
                if !node.pending {
                    return ;
                }
                let parent = match &node.parent {
                    Some(parent) => Some(copy_bytes(parent.as_slice())),
                    None => None,
                };
                Node { parent, name: copy_bytes(node.name.as_slice()), pending: false }
            },
            None => {
                return ;
            },
        };
        proof {
            law_a_walked_directory_stays_in_place(self@, h@, h@);
            assert(node@ == (NodeModel { pending: false, ..self@.nodes[h@] }));
        }
        self.put(h, node);
    }

    /// Takes the directory `h` out of the map, with all that is beneath it. The
    /// root stays.
    pub fn forget(&mut self, h: &[u8])
        requires
            old(self).wf(),
        ensures
            final(self).wf(),
            final(self)@ == old(self)@.forgotten(h@),
    {
        match self.nodes.get(h) {
            Some(node) => {
                if node.parent.is_none() {
                    return ;
                }
            },
            None => {
                return ;
            },
        }
        proof {
            law_forgetting_keeps_the_invariant(self@, h@);
        }
        let mut kept: Vec<Vec<u8>> = Vec::new();
        let mut gone: Vec<Vec<u8>> = Vec::new();
        let mut i: usize = 0;
        let ghost list = views(self.order@);
        let ghost nodes = self@.nodes;
        while i < self.order.len()
            invariant
                i <= self.order@.len(),
                *self == *old(self),
                self.wf(),
                list == views(self.order@),
                nodes == self@.nodes,
                views(kept@).no_duplicates(),
                forall|k: Seq<u8>| #[trigger]
                    views(kept@).contains(k) <==> list.take(i as int).contains(k) && !lies_in(
                        nodes,
                        k,
                        h@,
                    ),
                forall|k: Seq<u8>| #[trigger]
                    views(gone@).contains(k) <==> list.take(i as int).contains(k) && lies_in(
                        nodes,
                        k,
                        h@,
                    ),
            decreases self.order@.len() - i,
        {
            let ghost key = list[i as int];
            let ghost before_kept = views(kept@);
            let ghost before_gone = views(gone@);
            proof {
                assert(list.take(i + 1) =~= list.take(i as int).push(key));
                assert(list.contains(key));
                assert(list.to_set().contains(key));
                assert(self.nodes@.dom().contains(key));
                assert forall|k: Seq<u8>| #[trigger]
                    list.take(i + 1).contains(k) <==> list.take(i as int).contains(k) || k
                    == key by {
                    lemma_push_contains(list.take(i as int), key, k);
                }
                assert(!list.take(i as int).contains(key)) by {
                    if list.take(i as int).contains(key) {
                        let j = list.take(i as int).index_of(key);
                        assert(list[j] == list[i as int]);
                    }
                }
            }
            let copy = copy_bytes(self.order[i].as_slice());
            if self.is_beneath(self.order[i].as_slice(), h) {
                gone.push(copy);
                assert(views(gone@) =~= before_gone.push(key));
                assert forall|k: Seq<u8>| #[trigger]
                    views(gone@).contains(k) <==> before_gone.contains(k) || k == key by {
                    lemma_push_contains(before_gone, key, k);
                }
            } else {
                kept.push(copy);
                assert(views(kept@) =~= before_kept.push(key));
                assert forall|k: Seq<u8>| #[trigger]
                    views(kept@).contains(k) <==> before_kept.contains(k) || k == key by {
                    lemma_push_contains(before_kept, key, k);
                }
                assert(!before_kept.contains(key));
            }
            i = i + 1;
        }
        assert(list.take(i as int) =~= list);
        let ghost whole = self.nodes@;
        let mut j: usize = 0;
        while j < gone.len()
            invariant
                j <= gone@.len(),
                self.nodes.wf(),
                self.order == old(self).order,
                self.generation == old(self).generation,
                self.capacity == old(self).capacity,
                forall|k: Seq<u8>| #[trigger]
                    self.nodes@.contains_key(k) <==> whole.contains_key(k) && !views(
                        gone@,
                    ).take(j as int).contains(k),
                forall|k: Seq<u8>| #[trigger]
                    self.nodes@.contains_key(k) ==> self.nodes@[k] == whole[k],
            decreases gone@.len() - j,
        {
            let ghost key = views(gone@)[j as int];
            assert(views(gone@).take(j + 1) =~= views(gone@).take(j as int).push(key));
            self.nodes.remove(gone[j].as_slice());
            assert forall|k: Seq<u8>| #[trigger]
                self.nodes@.contains_key(k) <==> whole.contains_key(k) && !views(gone@).take(
                    j + 1,
                ).contains(k) by {
                lemma_push_contains(views(gone@).take(j as int), key, k);
            }
            j = j + 1;
        }
        assert(views(gone@).take(j as int) =~= views(gone@));
        self.order = kept;
        self.bump();
        proof {
            assert forall|k: Seq<u8>| #[trigger]
                self@.nodes.contains_key(k) <==> old(self)@.forgotten(
                    h@,
                ).nodes.contains_key(k) by {
                assert(list.contains(k) <==> list.to_set().contains(k));
                assert(whole.contains_key(k) <==> whole.dom().contains(k));
                assert(views(gone@).contains(k) <==> list.contains(k) && lies_in(nodes, k, h@));
            }
            assert(self@.nodes =~= old(self)@.forgotten(h@).nodes);
            assert forall|k: Seq<u8>| #[trigger]
                views(self.order@).to_set().contains(k) <==> self.nodes@.dom().contains(k) by {
                assert(views(self.order@).contains(k) <==> list.contains(k) && !lies_in(
                    nodes,
                    k,
                    h@,
                ));
                assert(list.contains(k) <==> list.to_set().contains(k));
                assert(views(gone@).contains(k) <==> list.contains(k) && lies_in(nodes, k, h@));
            }
            assert(views(self.order@).to_set() =~= self.nodes@.dom());
        }
    }

    /// Takes in one directory of a seed.
    fn take_entry(&mut self, entry: &SeedEntry)
        requires
            old(self).wf(),
        ensures
            final(self).wf(),
            final(self)@ == old(self)@.with_entry(entry@),
    {
        proof {
            self.lemma_wf();
            lemma_entry_keeps_wf(self@, entry@);
        }
        match &entry.parent {
            Some(parent) => {
                self.hang(entry.fid.handle(), parent.handle(), entry.name.as_slice(), false);
            },
            None => {
                if self.dir_count() == 0 {
                    let node = Node {
                        parent: None,
                        name: copy_bytes(entry.name.as_slice()),
                        pending: false,
                    };
                    self.put(entry.fid.handle(), node);
                }
            },
        }
    }

    /// Takes in the directories of a seed, in order.
    pub fn seed(&mut self, entries: &Vec<SeedEntry>)
        requires
            old(self).wf(),
        ensures
            final(self).wf(),
            final(self)@ == old(self)@.with_entries(
                entries@.map_values(|e: SeedEntry| e@),
            ),
    {
        let ghost models = entries@.map_values(|e: SeedEntry| e@);
        let mut i: usize = 0;
        while i < entries.len()
            invariant
                i <= entries@.len(),
                models == entries@.map_values(|e: SeedEntry| e@),
                self.wf(),
                self@ == old(self)@.with_entries(models.take(i as int)),
            decreases entries@.len() - i,
        {
            assert(models.take(i + 1).drop_last() =~= models.take(i as int));
            assert(models.take(i + 1).last() == entries@[i as int]@);
            self.take_entry(&entries[i]);
            i = i + 1;
        }
        assert(models.take(i as int) =~= models);
    }
}

proof fn lemma_push_contains(list: Seq<Seq<u8>>, h: Seq<u8>, k: Seq<u8>)
    ensures
        list.push(h).contains(k) <==> list.contains(k) || k == h,
{
    if list.contains(k) {
        assert(list.push(h)[list.index_of(k)] == k);
    }
    assert(list.push(h)[list.len() as int] == h);
    if list.push(h).contains(k) {
        let i = list.push(h).index_of(k);
        if i < list.len() {
            assert(list[i] == k);
        }
    }
}

} // verus!
