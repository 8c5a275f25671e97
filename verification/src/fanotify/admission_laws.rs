//! What holds of every event that is classified.

use vstd::prelude::*;

use crate::fanotify::admission::{
    Action, AdmissionModel, addressed, admitted, changes_fence, classified, decided, departed,
    end_path, end_reported, is_fenced, is_map_neutral, meets_exclusion, renamed, subject,
    touches_root,
};
use crate::fanotify::event::{FAN_ONDIR, FanEventModel};
use crate::fanotify::fid::FidModel;
use crate::fanotify::map::{
    MapModel, is_rooted, law_a_path_follows_its_links, law_forgetting_keeps_the_invariant,
    law_forgetting_prunes_one_subtree, law_hanging_keeps_the_invariant,
    law_hanging_moves_one_subtree, law_nothing_lies_in_what_is_not_held,
    law_the_map_reaches_what_it_holds, lies_in, path_in, under,
};
use crate::path::{
    at_or_under, components, is_child_name, joined, law_a_child_is_one_component_down,
    law_under_is_transitive,
};
use crate::scope::is_excluded;

verus! {

/// Where nothing is excluded, an event comes to the action that was decided.
pub proof fn law_classification_follows_the_decision(map: MapModel, event: FanEventModel)
    ensures
        classified(map, Seq::empty(), event).0.action() == decided(map, event),
{
    if let Some(r) = event.rename {
        let none = Seq::<Seq<u8>>::empty();
        assert(!is_excluded(none, end_path(map, r.new_dir, r.new_name)));
        assert(!meets_exclusion(none, end_path(map, r.new_dir, r.new_name)));
        assert(!meets_exclusion(none, end_path(map, r.old_dir, r.old_name)));
    }
}

/// Whether the directory that the event is addressed by is in the map.
pub open spec fn object_admitted(map: MapModel, event: FanEventModel) -> bool {
    match event.rename {
        Some(r) => admitted(map, Some(r.old_dir)) || admitted(map, Some(r.new_dir)),
        None => admitted(map, addressed(event)),
    }
}

/// An event that is addressed by a directory of the map is never dropped as
/// foreign.
pub proof fn law_no_admitted_event_is_foreign(
    map: MapModel,
    exclusions: Seq<Seq<u8>>,
    event: FanEventModel,
)
    requires
        object_admitted(map, event),
    ensures
        classified(map, exclusions, event).0.action() != Action::ForeignDrop,
{
}

/// Whether the map holds anything that the event carries and is about: its
/// target, an end of a rename, or its directory. A directory beside the ends of
/// a plain rename says nothing.
pub open spec fn carries_held(map: MapModel, event: FanEventModel) -> bool {
    let held = |fid: Option<FidModel>| fid matches Some(f) && map.holds(f.handle);
    ||| held(event.target_fid)
    ||| held(event.dir_fid) && (event.rename is None || event.mask.verbs() >= 2)
    ||| event.rename matches Some(r) && (map.holds(r.old_dir.handle) || map.holds(
        r.new_dir.handle,
    ))
}

/// An event that carries anything the map holds is never dropped as foreign,
/// whatever its shape and its verbs.
pub proof fn law_no_held_object_is_foreign(
    map: MapModel,
    exclusions: Seq<Seq<u8>>,
    event: FanEventModel,
)
    requires
        map.wf(),
        carries_held(map, event),
    ensures
        classified(map, exclusions, event).0.action() != Action::ForeignDrop,
{
    if let Some(f) = event.target_fid {
        law_the_map_reaches_what_it_holds(map, f.handle);
    }
    if let Some(f) = event.dir_fid {
        law_the_map_reaches_what_it_holds(map, f.handle);
    }
    if let Some(r) = event.rename {
        law_the_map_reaches_what_it_holds(map, r.old_dir.handle);
        law_the_map_reaches_what_it_holds(map, r.new_dir.handle);
    }
}

/// What is told of an event is what its action needs: the path of its object,
/// or the two paths of a rename, and never both.
pub proof fn law_what_is_told_is_complete(
    map: MapModel,
    exclusions: Seq<Seq<u8>>,
    event: FanEventModel,
)
    ensures
        match classified(map, exclusions, event).0 {
            AdmissionModel::Forward(e)
            | AdmissionModel::LearnDir(e)
            | AdmissionModel::ForgetDir(e)
            | AdmissionModel::RootDeath(e) => e.path is Some && e.rename is None,
            AdmissionModel::Rename(e, _) => e.path is None && e.rename is Some,
            _ => true,
        },
{
}

/// What the kernel merged never changes the map by one of its verbs: it leaves
/// the map alone. Where it touches the root and could have changed the map it
/// is a loss, and otherwise it is told.
pub proof fn law_a_merge_never_changes_the_map(
    map: MapModel,
    exclusions: Seq<Seq<u8>>,
    event: FanEventModel,
)
    requires
        event.mask.verbs() >= 2,
        touches_root(map, event),
    ensures
        classified(map, exclusions, event).1 == map,
        classified(map, Seq::empty(), event).0.action() == if is_map_neutral(map, event) {
            Action::Forward
        } else {
            Action::Lossy
        },
{
    law_classification_follows_the_decision(map, event);
}

/// An event on a file's name, or the rename of a file, leaves the map alone: the
/// map grows with directories only.
pub proof fn law_files_never_change_the_map(
    map: MapModel,
    exclusions: Seq<Seq<u8>>,
    event: FanEventModel,
)
    requires
        !event.mask.has(FAN_ONDIR),
        event.name is Some || event.rename is Some,
    ensures
        classified(map, exclusions, event).1 == map,
{
}

/// A loss and a drop leave the map alone, and so does the root's end.
pub proof fn law_a_refusal_leaves_the_map_alone(
    map: MapModel,
    exclusions: Seq<Seq<u8>>,
    event: FanEventModel,
)
    requires
        match classified(map, exclusions, event).0.action() {
            Action::Lossy
            | Action::ForeignDrop
            | Action::ExcludedDrop
            | Action::RootDeath
            | Action::Forward => true,
            _ => false,
        },
    ensures
        classified(map, exclusions, event).1 == map,
{
}

/// The root's end is told whatever is excluded.
pub proof fn law_the_roots_end_is_always_told(
    map: MapModel,
    exclusions: Seq<Seq<u8>>,
    event: FanEventModel,
)
    requires
        decided(map, event) == Action::RootDeath,
    ensures
        classified(map, exclusions, event).0.action() == Action::RootDeath,
        classified(map, exclusions, event).0 == classified(map, Seq::empty(), event).0,
{
}

/// Classifying an event keeps the map's invariant, and the root in the map.
pub proof fn law_classifying_keeps_the_invariant(
    map: MapModel,
    exclusions: Seq<Seq<u8>>,
    event: FanEventModel,
    root: Seq<u8>,
)
    requires
        map.wf(),
        map.is_root(root),
    ensures
        classified(map, exclusions, event).1.wf(),
        classified(map, exclusions, event).1.is_root(root),
{
    let after = classified(map, exclusions, event).1;
    lemma_root_is_above_all(map, root);
    if !is_fenced(map, exclusions, event) {
        match decided(map, event) {
            Action::LearnDir => {
                let h = event.target_fid->0.handle;
                let p = event.dir_fid->0.handle;
                law_hanging_keeps_the_invariant(map, h, p, event.name->0, false);
            },
            Action::ForgetDir => {
                let h = departed(event);
                law_forgetting_keeps_the_invariant(map, h);
                lemma_forgetting_keeps_the_root(map, h, root);
            },
            Action::Rename { .. } => {
                if event.mask.has(FAN_ONDIR) {
                    let r = event.rename->0;
                    let h = event.target_fid->0.handle;
                    let p = r.new_dir.handle;
                    law_hanging_keeps_the_invariant(map, h, p, r.new_name, true);
                    law_forgetting_keeps_the_invariant(map, h);
                    lemma_forgetting_keeps_the_root(map, h, root);
                    let pruned = map.forgotten(h);
                    lemma_root_is_above_all(pruned, root);
                    law_hanging_keeps_the_invariant(pruned, h, p, r.new_name, true);
                }
            },
            _ => {},
        }
    }
}

/// Everything in the map hangs beneath the root, so that the root itself can
/// hang nowhere.
proof fn lemma_root_is_above_all(map: MapModel, root: Seq<u8>)
    requires
        map.wf(),
        map.is_root(root),
    ensures
        forall|p: Seq<u8>| #[trigger] map.holds(p) ==> lies_in(map.nodes, p, root),
{
    assert forall|p: Seq<u8>| #[trigger] map.holds(p) implies lies_in(map.nodes, p, root) by {
        assert(map.nodes.contains_key(p));
        assert(is_rooted(map.nodes, p));
        let n = choose|n: nat| #[trigger] path_in(map.nodes, p, n) is Some;
        lemma_reaches_root(map, p, root, n);
    }
}

proof fn lemma_reaches_root(map: MapModel, p: Seq<u8>, root: Seq<u8>, n: nat)
    requires
        map.wf(),
        map.is_root(root),
        path_in(map.nodes, p, n) is Some,
    ensures
        under(map.nodes, p, root, n),
    decreases n,
{
    match map.nodes[p].parent {
        Some(q) => {
            lemma_reaches_root(map, q, root, (n - 1) as nat);
        },
        None => {
            assert(map.is_root(p));
        },
    }
}

proof fn lemma_forgetting_keeps_the_root(map: MapModel, h: Seq<u8>, root: Seq<u8>)
    requires
        map.wf(),
        map.is_root(root),
    ensures
        map.forgotten(h).is_root(root),
{
    if map.holds(h) && !map.is_root(h) {
        law_forgetting_prunes_one_subtree(map, h, root);
        if lies_in(map.nodes, root, h) {
            let n = choose|n: nat| #[trigger] under(map.nodes, root, h, n);
            assert(under(map.nodes, root, h, n));
        }
    }
}

/// Where a directory is to be walked, it is in the map under its new name, and
/// marked; and a directory that comes into the reported tree is to be walked.
pub proof fn law_an_arrival_is_walked(
    map: MapModel,
    exclusions: Seq<Seq<u8>>,
    event: FanEventModel,
)
    requires
        map.wf(),
        event.rename is Some,
        event.mask.has(FAN_ONDIR),
        classified(map, exclusions, event).0.action() is Rename,
    ensures
        ({
            let r = event.rename->0;
            let moved = event.target_fid->0;
            let (admission, after) = classified(map, exclusions, event);
            let arrives = end_reported(map, exclusions, r.new_dir, r.new_name);
            &&& arrives && !map.holds(moved.handle) ==> admission.action() == (Action::Rename {
                seed: true,
            })
            &&& !arrives ==> admission.action() == (Action::Rename { seed: false })
            &&& admission matches AdmissionModel::Rename(_, Some(fid)) ==> {
                &&& fid == moved
                &&& after.holds(fid.handle)
                &&& after.nodes[fid.handle].pending
                &&& after.path_of(fid.handle) == Some(end_path(map, r.new_dir, r.new_name))
            }
        }),
{
    let r = event.rename->0;
    let h = event.target_fid->0.handle;
    let p = r.new_dir.handle;
    let (admission, after) = classified(map, exclusions, event);
    if admission matches AdmissionModel::Rename(_, Some(_)) {
        law_the_map_reaches_what_it_holds(map, p);
        if !map.holds(h) {
            law_nothing_lies_in_what_is_not_held(map, p, h);
            law_hanging_moves_one_subtree(map, h, p, r.new_name, true, h);
        } else {
            lemma_hangable_is_no_root(map, h, p);
            law_forgetting_keeps_the_invariant(map, h);
            law_forgetting_prunes_one_subtree(map, h, p);
            law_forgetting_prunes_one_subtree(map, h, h);
            let pruned = map.forgotten(h);
            law_nothing_lies_in_what_is_not_held(pruned, p, h);
            law_hanging_moves_one_subtree(pruned, h, p, r.new_name, true, h);
        }
    }
}

pub(crate) proof fn lemma_hangable_is_no_root(map: MapModel, h: Seq<u8>, p: Seq<u8>)
    requires
        map.wf(),
        map.can_hang(h, p),
    ensures
        !map.is_root(h),
{
    if map.is_root(h) {
        lemma_root_is_above_all(map, h);
    }
}

/// Whether the map holds nothing that is excluded, under names that name a
/// child.
pub open spec fn is_clean(map: MapModel, exclusions: Seq<Seq<u8>>) -> bool {
    &&& map.wf()
    &&& forall|h: Seq<u8>| #[trigger]
        map.holds(h) ==> !is_excluded(exclusions, map.path_of(h)->0)
    &&& forall|h: Seq<u8>| #[trigger]
        map.holds(h) && map.nodes[h].parent is Some ==> is_child_name(map.nodes[h].name)
}

/// Nothing excluded ever comes into the map: what is learned or moves is never
/// excluded at its new place, nor is anything beneath it. A directory that is
/// created while the map holds it elsewhere moves without a look beneath it, so
/// of such an event it holds where no exclusion lies at or beneath its new
/// place.
pub proof fn law_nothing_excluded_enters_the_map(
    map: MapModel,
    exclusions: Seq<Seq<u8>>,
    event: FanEventModel,
)
    requires
        is_clean(map, exclusions),
        event.name matches Some(name) ==> is_child_name(name),
        event.rename matches Some(r) ==> is_child_name(r.new_name),
        decided(map, event) == Action::LearnDir && map.holds(event.target_fid->0.handle)
            ==> !meets_exclusion(exclusions, subject(map, event)),
    ensures
        is_clean(classified(map, exclusions, event).1, exclusions),
{
    let after = classified(map, exclusions, event).1;
    if !is_fenced(map, exclusions, event) {
        match decided(map, event) {
            Action::LearnDir => {
                let h = event.target_fid->0.handle;
                let p = event.dir_fid->0.handle;
                let name = event.name->0;
                law_the_map_reaches_what_it_holds(map, p);
                if exclusions.len() == 0 {
                    assert(!is_excluded(exclusions, subject(map, event)));
                }
                lemma_hanging_stays_clean(map, exclusions, h, p, name, false);
            },
            Action::ForgetDir => {
                lemma_forgetting_stays_clean(
                    map,
                    exclusions,
                    departed(event),
                );
            },
            Action::Rename { .. } => {
                if event.mask.has(FAN_ONDIR) {
                    let r = event.rename->0;
                    let h = event.target_fid->0.handle;
                    let p = r.new_dir.handle;
                    lemma_forgetting_stays_clean(map, exclusions, h);
                    if end_reported(map, exclusions, r.new_dir, r.new_name) {
                        law_the_map_reaches_what_it_holds(map, p);
                        if !map.holds(h) {
                            lemma_hanging_stays_clean(map, exclusions, h, p, r.new_name, true);
                        } else if map.can_hang(h, p) {
                            if changes_fence(map, exclusions, r) {
                                lemma_hangable_is_no_root(map, h, p);
                                law_forgetting_prunes_one_subtree(map, h, p);
                                law_forgetting_prunes_one_subtree(map, h, h);
                                let pruned = map.forgotten(h);
                                lemma_hanging_stays_clean(
                                    pruned,
                                    exclusions,
                                    h,
                                    p,
                                    r.new_name,
                                    true,
                                );
                            } else {
                                lemma_hanging_stays_clean(map, exclusions, h, p, r.new_name, true);
                            }
                        }
                    }
                }
            },
            _ => {},
        }
    }
}

proof fn lemma_forgetting_stays_clean(map: MapModel, exclusions: Seq<Seq<u8>>, h: Seq<u8>)
    requires
        is_clean(map, exclusions),
    ensures
        is_clean(map.forgotten(h), exclusions),
{
    law_forgetting_keeps_the_invariant(map, h);
    let after = map.forgotten(h);
    assert forall|k: Seq<u8>| #[trigger] after.holds(k) implies !is_excluded(
        exclusions,
        after.path_of(k)->0,
    ) by {
        assert(map.holds(k));
        if map.holds(h) && !map.is_root(h) {
            law_forgetting_prunes_one_subtree(map, h, k);
        }
    }
    assert forall|k: Seq<u8>| #[trigger]
        after.holds(k) && after.nodes[k].parent is Some implies is_child_name(
        after.nodes[k].name,
    ) by {
        assert(map.holds(k));
    }
}

proof fn lemma_hanging_stays_clean(
    map: MapModel,
    exclusions: Seq<Seq<u8>>,
    h: Seq<u8>,
    p: Seq<u8>,
    name: Seq<u8>,
    pending: bool,
)
    requires
        is_clean(map, exclusions),
        is_child_name(name),
        map.holds(p),
        !is_excluded(exclusions, joined(map.path_of(p)->0, name)),
        map.holds(h) ==> !meets_exclusion(exclusions, joined(map.path_of(p)->0, name)),
    ensures
        is_clean(map.hung(h, p, name, pending), exclusions),
{
    let after = map.hung(h, p, name, pending);
    if map.can_hang(h, p) {
        let place = joined(map.path_of(p)->0, name);
        law_hanging_keeps_the_invariant(map, h, p, name, pending);
        law_hanging_moves_one_subtree(map, h, p, name, pending, h);
        assert forall|k: Seq<u8>| #[trigger]
            after.holds(k) && after.nodes[k].parent is Some implies is_child_name(
            after.nodes[k].name,
        ) by {
            if k != h {
                assert(map.holds(k));
            }
        }
        assert forall|k: Seq<u8>| #[trigger] after.holds(k) implies !is_excluded(
            exclusions,
            after.path_of(k)->0,
        ) by {
            if k == h {
            } else {
                assert(map.holds(k));
                law_hanging_moves_one_subtree(map, h, p, name, pending, k);
                if lies_in(map.nodes, k, h) {
                    law_nothing_lies_in_what_is_not_held(map, k, h);
                    let n = choose|n: nat| #[trigger] under(map.nodes, k, h, n);
                    lemma_beneath_is_at_or_under(map, h, p, name, pending, k, n);
                    lemma_beneath_a_clear_place(exclusions, place, after.path_of(k)->0);
                }
            }
        }
    }
}

/// What hangs beneath a moved directory has a path beneath the directory's.
proof fn lemma_beneath_is_at_or_under(
    map: MapModel,
    h: Seq<u8>,
    p: Seq<u8>,
    name: Seq<u8>,
    pending: bool,
    k: Seq<u8>,
    n: nat,
)
    requires
        map.wf(),
        map.can_hang(h, p),
        map.hung(h, p, name, pending).wf(),
        forall|x: Seq<u8>| #[trigger]
            map.hung(h, p, name, pending).holds(x) && map.hung(
                h,
                p,
                name,
                pending,
            ).nodes[x].parent is Some ==> is_child_name(
                map.hung(h, p, name, pending).nodes[x].name,
            ),
        under(map.nodes, k, h, n),
    ensures
        at_or_under(
            map.hung(h, p, name, pending).path_of(k)->0,
            map.hung(h, p, name, pending).path_of(h)->0,
        ),
    decreases n,
{
    let after = map.hung(h, p, name, pending);
    if k == h {
        let c = components(after.path_of(h)->0);
        assert(c.take(c.len() as int) =~= c);
    } else {
        let q = map.nodes[k].parent->0;
        lemma_beneath_is_at_or_under(map, h, p, name, pending, q, (n - 1) as nat);
        assert(after.holds(k));
        assert(after.nodes[k] == map.nodes[k]);
        law_a_path_follows_its_links(after, k);
        let dir = after.path_of(q)->0;
        let own = map.nodes[k].name;
        law_a_child_is_one_component_down(dir, own);
        let cd = components(dir);
        assert(cd.push(own).take(cd.len() as int) =~= cd);
        law_under_is_transitive(joined(dir, own), dir, after.path_of(h)->0);
    }
}

/// Beneath a place that no exclusion meets, nothing is excluded.
proof fn lemma_beneath_a_clear_place(exclusions: Seq<Seq<u8>>, place: Seq<u8>, path: Seq<u8>)
    requires
        !meets_exclusion(exclusions, place),
        at_or_under(path, place),
    ensures
        !is_excluded(exclusions, path),
{
    if is_excluded(exclusions, path) {
        let i = choose|i: int|
            0 <= i < exclusions.len() && at_or_under(path, #[trigger] exclusions[i]);
        let e = exclusions[i];
        let (cp, ce, cq) = (components(path), components(e), components(place));
        if ce.len() <= cq.len() {
            assert forall|j: int| 0 <= j < ce.len() implies ce[j] == cq[j] by {
                assert(ce[j] == cp.take(ce.len() as int)[j]);
                assert(cq[j] == cp.take(cq.len() as int)[j]);
            }
            assert(ce =~= cq.take(ce.len() as int));
            assert(at_or_under(place, exclusions[i]));
        } else {
            assert forall|j: int| 0 <= j < cq.len() implies cq[j] == ce[j] by {
                assert(ce[j] == cp.take(ce.len() as int)[j]);
                assert(cq[j] == cp.take(cq.len() as int)[j]);
            }
            assert(cq =~= ce.take(cq.len() as int));
            assert(at_or_under(exclusions[i], place));
        }
    }
}

/// Whether the exclusions say nothing about the event: none meets a path that
/// it names in the map, and none covers its target.
pub open spec fn is_unrelated(
    map: MapModel,
    exclusions: Seq<Seq<u8>>,
    event: FanEventModel,
) -> bool {
    &&& match event.rename {
        Some(r) => {
            &&& admitted(map, Some(r.old_dir)) ==> !meets_exclusion(
                exclusions,
                end_path(map, r.old_dir, r.old_name),
            )
            &&& admitted(map, Some(r.new_dir)) ==> !meets_exclusion(
                exclusions,
                end_path(map, r.new_dir, r.new_name),
            )
            &&& !admitted(map, event.dir_fid)
        },
        None => admitted(map, addressed(event)) ==> !is_excluded(exclusions, subject(map, event)),
    }
    &&& admitted(map, event.target_fid) ==> !is_excluded(
        exclusions,
        map.path_of(event.target_fid->0.handle)->0,
    )
}

/// Exclusions that say nothing about an event change nothing about it: the map
/// comes out the same, and so does the admission, except that a drop may be
/// called excluded where it would have been called foreign.
pub proof fn law_an_unrelated_exclusion_changes_nothing(
    map: MapModel,
    exclusions: Seq<Seq<u8>>,
    event: FanEventModel,
)
    requires
        is_unrelated(map, exclusions, event),
    ensures
        classified(map, exclusions, event).1 == classified(map, Seq::empty(), event).1,
        classified(map, exclusions, event).0 == classified(map, Seq::empty(), event).0 || (
        classified(map, exclusions, event).0.action() == Action::ExcludedDrop && classified(
            map,
            Seq::empty(),
            event,
        ).0.action() == Action::ForeignDrop),
{
    let none = Seq::<Seq<u8>>::empty();
    assert forall|path: Seq<u8>| !is_excluded(none, path) && !meets_exclusion(none, path) by {}
    if let Some(r) = event.rename {
        let h = event.target_fid->0.handle;
        let old_path = end_path(map, r.old_dir, r.old_name);
        let new_path = end_path(map, r.new_dir, r.new_name);
        assert(!meets_exclusion(none, new_path) && !meets_exclusion(none, old_path));
        assert(renamed(map, exclusions, r, h) == renamed(map, none, r, h));
    }
}

} // verus!
